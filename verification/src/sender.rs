//! A producer for one connection set: what to send, to whom, and what an answer means.
//!
//! Nothing here opens a socket or reads a clock. Times are nanoseconds on whatever
//! monotonic clock the caller uses, and broker answers are handed in.
use crate::batch;
use crate::batch::{CompressionCodec, Outgoing};
use crate::buffer;
use crate::client;
use crate::client::{Disposition, Error, Fault};
use crate::error;
use crate::error::{CodecFault, Flaw};
use crate::group;
use crate::group::TopicPartition;
use crate::grouping;
use crate::membership;
use crate::membership::{GroupMetadata, OffsetEntry};
use crate::names;
use crate::partitioner;
use crate::partitioner::Partitioner;
use crate::producer;
use crate::producer::{ProducerError, ProducerIdentity, ProducerState, SequenceRange, TxnState};
use crate::records;
use crate::retry;
use crate::retry::Verdict;
use crate::slots;
use crate::slots::SlotMap;
use crate::window;
use crate::window::Answer;
use crate::wire;
use bytes::Bytes;
use std::collections::VecDeque;
use vstd::prelude::*;
use vstd::string::StringExecFns;

verus! {

/// How many writes may be in flight on one connection. A failure partway through the
/// window voids everything behind it, and recovering from that is only bounded work if
/// the window is.
pub const DEFAULT_MAX_IN_FLIGHT: usize = 5;

/// How many bytes of records accumulate before a batch is sent regardless of the
/// linger.
pub const DEFAULT_BATCH_SIZE: usize = 16384;

/// Roughly what one record costs on the wire beyond its key and value. It decides when
/// to send, not what to encode.
pub const RECORD_OVERHEAD: usize = 16;

/// A record to produce. It has no sequence, producer id or epoch: those are the
/// producer's to set, and letting a caller supply them is how they get set wrong.
#[derive(Debug)]
pub struct ProducerRecord {
    pub key: Option<Bytes>,
    pub value: Option<Bytes>,
    /// Milliseconds since the epoch. `None` means "now".
    pub timestamp: Option<i64>,
}

/// What a [`ProducerRecord`] stands for.
pub ghost struct Message {
    pub key: Option<Seq<u8>>,
    pub value: Option<Seq<u8>>,
    pub timestamp: Option<i64>,
}

impl View for ProducerRecord {
    type V = Message;

    open spec fn view(&self) -> Message {
        Message {
            key: records::optional_contents(self.key),
            value: records::optional_contents(self.value),
            timestamp: self.timestamp,
        }
    }
}

/// What a list of records stands for.
pub open spec fn messages(records: Seq<ProducerRecord>) -> Seq<Message> {
    Seq::new(records.len(), |i: int| records[i]@)
}

fn copy(bytes: &Option<Bytes>) -> (out: Option<Bytes>)
    ensures
        records::optional_contents(out) == records::optional_contents(*bytes),
{
    match bytes {
        Some(b) => Some(b.clone()),
        None => None,
    }
}

impl Clone for ProducerRecord {
    fn clone(&self) -> (out: Self)
        ensures
            out@ == self@,
    {
        ProducerRecord {
            key: copy(&self.key),
            value: copy(&self.value),
            timestamp: self.timestamp,
        }
    }
}

impl ProducerRecord {
    /// A record whose timestamp is "now".
    pub fn new(key: Option<Bytes>, value: Option<Bytes>) -> (record: Self)
        ensures
            record.key == key,
            record.value == value,
            record.timestamp is None,
    {
        ProducerRecord { key, value, timestamp: None }
    }
}

/// Records waiting to be encoded, for one partition.
#[derive(Debug)]
struct Staged {
    records: Vec<ProducerRecord>,
    /// What they will roughly take.
    bytes: usize,
    /// When the **first** of them arrived: a linger counted from the last one would
    /// never end under a steady stream.
    since: u64,
}

/// What is staged for one partition.
pub ghost struct Accumulating {
    pub records: Seq<Message>,
    pub bytes: usize,
    pub since: u64,
}

impl View for Staged {
    type V = Accumulating;

    closed spec fn view(&self) -> Accumulating {
        Accumulating { records: messages(self.records@), bytes: self.bytes, since: self.since }
    }
}

/// An idempotent, optionally transactional producer.
#[derive(Debug)]
pub struct Producer {
    state: ProducerState,
    transactional_id: Option<String>,
    /// The coordinator's address, once found.
    coordinator: Option<String>,
    acks: i16,
    timeout_ms: i32,
    compression: CompressionCodec,
    partitioner: Partitioner,
    /// The round-robin counter for records without a key.
    round_robin: u32,
    /// Encoded batches per partition, **in sequence order**. The order is what the
    /// whole pipelining scheme rests on.
    pending: SlotMap<VecDeque<Bytes>>,
    max_in_flight: usize,
    staged: SlotMap<Staged>,
    linger: u64,
    batch_size: usize,
}

/// What a [`Producer`] stands for.
pub ghost struct Outbox {
    pub sequencing: producer::Sequencing,
    pub transactional_id: Option<Seq<char>>,
    pub coordinator: Option<Seq<char>>,
    pub acks: i16,
    pub timeout_ms: i32,
    pub compression: CompressionCodec,
    pub partitioner: Partitioner,
    pub round_robin: u32,
    /// The encoded batches of each partition that has some, oldest first.
    pub pending: Map<(Seq<char>, i32), Seq<Bytes>>,
    pub max_in_flight: usize,
    pub staged: Map<(Seq<char>, i32), Accumulating>,
    pub linger: u64,
    pub batch_size: usize,
}

impl View for Producer {
    type V = Outbox;

    closed spec fn view(&self) -> Outbox {
        Outbox {
            sequencing: self.state@,
            transactional_id: client::optional_text(self.transactional_id),
            coordinator: client::optional_text(self.coordinator),
            acks: self.acks,
            timeout_ms: self.timeout_ms,
            compression: self.compression,
            partitioner: self.partitioner,
            round_robin: self.round_robin,
            pending: window::queues_of(self.pending@),
            max_in_flight: self.max_in_flight,
            staged: self.staged@.map_values(|s: Staged| s@),
            linger: self.linger,
            batch_size: self.batch_size,
        }
    }
}

/// A producer before it has an identity.
pub open spec fn unopened(transactional_id: Option<Seq<char>>) -> Outbox {
    Outbox {
        sequencing: producer::fresh(transactional_id is Some),
        transactional_id,
        coordinator: None,
        acks: (-1) as i16,
        timeout_ms: 30_000,
        compression: CompressionCodec::Uncompressed,
        partitioner: Partitioner::Crc32,
        round_robin: 0,
        pending: Map::empty(),
        max_in_flight: DEFAULT_MAX_IN_FLIGHT,
        staged: Map::empty(),
        linger: 0,
        batch_size: DEFAULT_BATCH_SIZE,
    }
}

impl Producer {
    /// Whether every queue holds something, and the limits are positive.
    pub closed spec fn well_formed(&self) -> bool {
        &&& self.state.well_formed()
        &&& self.pending.well_formed()
        &&& self.staged.well_formed()
        &&& forall|slot: (Seq<char>, i32)| #[trigger]
            self.pending@.dom().contains(slot) ==> self.pending@[slot]@.len() > 0
        &&& self.max_in_flight > 0
        &&& self.batch_size > 0
        &&& self.state@.transactional == self.transactional_id is Some
    }

    fn unopened(state: ProducerState, transactional_id: Option<String>) -> (me: Self)
        requires
            state.well_formed(),
            state@ == producer::fresh(transactional_id is Some),
        ensures
            me.well_formed(),
            me@ == unopened(client::optional_text(transactional_id)),
    {
        let me = Producer {
            state,
            transactional_id,
            coordinator: None,
            acks: -1,
            timeout_ms: 30_000,
            compression: CompressionCodec::Uncompressed,
            partitioner: Partitioner::Crc32,
            round_robin: 0,
            pending: SlotMap::new(),
            max_in_flight: DEFAULT_MAX_IN_FLIGHT,
            staged: SlotMap::new(),
            linger: 0,
            batch_size: DEFAULT_BATCH_SIZE,
        };
        assert(me@.pending =~= Map::empty());
        assert(me@.staged =~= Map::empty());
        me
    }

    /// A transactional producer under `transactional_id`. Its first identity fences
    /// any earlier producer of the same id, which is how a restarted job stops its own
    /// zombie from writing.
    pub fn transactional(transactional_id: &str) -> (me: Self)
        ensures
            me.well_formed(),
            me@ == unopened(Some(transactional_id@)),
    {
        Producer::unopened(ProducerState::transactional(), Some(transactional_id.to_owned()))
    }

    /// An idempotent producer without transactions.
    pub fn idempotent() -> (me: Self)
        ensures
            me.well_formed(),
            me@ == unopened(None),
    {
        Producer::unopened(ProducerState::idempotent(), None)
    }

    /// Chooses which hash decides a keyed record's partition.
    pub fn set_partitioner(&mut self, partitioner: Partitioner)
        requires
            old(self).well_formed(),
        ensures
            final(self).well_formed(),
            final(self)@ == (Outbox { partitioner, ..old(self)@ }),
    {
        self.partitioner = partitioner;
    }

    /// Compresses batches with this codec from now on.
    pub fn set_compression(&mut self, compression: CompressionCodec)
        requires
            old(self).well_formed(),
        ensures
            final(self).well_formed(),
            final(self)@ == (Outbox { compression, ..old(self)@ }),
    {
        self.compression = compression;
    }

    /// How long a partial batch waits for company, in nanoseconds. Zero means that a
    /// record is sent as soon as it is produced.
    pub fn set_linger(&mut self, linger: u64)
        requires
            old(self).well_formed(),
        ensures
            final(self).well_formed(),
            final(self)@ == (Outbox { linger, ..old(self)@ }),
    {
        self.linger = linger;
    }

    /// How large a batch may grow before it is sent regardless of the linger.
    pub fn set_batch_size(&mut self, bytes: usize)
        requires
            old(self).well_formed(),
            bytes > 0,
        ensures
            final(self).well_formed(),
            final(self)@ == (Outbox { batch_size: bytes, ..old(self)@ }),
    {
        self.batch_size = bytes;
    }

    /// How many writes may be in flight on one connection. One is strict
    /// request-response.
    pub fn set_max_in_flight(&mut self, max: usize)
        requires
            old(self).well_formed(),
            max > 0,
        ensures
            final(self).well_formed(),
            final(self)@ == (Outbox { max_in_flight: max, ..old(self)@ }),
    {
        self.max_in_flight = max;
    }

    pub fn identity(&self) -> (identity: Option<ProducerIdentity>)
        ensures
            identity == self@.sequencing.identity,
    {
        self.state.identity()
    }

    /// The transaction state, for callers that supervise the producer.
    pub fn state(&self) -> (txn: TxnState)
        ensures
            txn == self@.sequencing.txn,
    {
        self.state.state()
    }
}

/// Where a coordinator request goes.
#[derive(Debug)]
pub enum Target {
    /// To any broker: an idempotent producer has no coordinator.
    Any,
    /// To this address.
    At(String),
    /// Nowhere yet: the coordinator of this transactional id must be found first.
    Find(String),
}

/// A request for an identity.
#[derive(Debug)]
pub struct InitProducerId {
    pub transactional_id: Option<String>,
    pub transaction_timeout_ms: i32,
    pub producer_id: i64,
    pub producer_epoch: i16,
}

/// A request to end a transaction.
#[derive(Debug)]
pub struct EndTxn {
    pub transactional_id: String,
    pub producer_id: i64,
    pub producer_epoch: i16,
    pub committed: bool,
}

/// A request to add partitions of one topic to a transaction.
#[derive(Debug)]
pub struct Enrollment {
    pub transactional_id: String,
    pub producer_id: i64,
    pub producer_epoch: i16,
    pub topic: String,
    pub partitions: Vec<i32>,
}

/// The first `n` partitions that are not part of the transaction yet, in their order.
pub open spec fn not_enrolled(
    sequencing: producer::Sequencing,
    topic: Seq<char>,
    partitions: Seq<i32>,
    n: nat,
) -> Seq<i32>
    decreases n,
{
    if n == 0 {
        Seq::empty()
    } else {
        let earlier = not_enrolled(sequencing, topic, partitions, (n - 1) as nat);
        if sequencing.transactional && sequencing.txn == TxnState::InTransaction
            && !sequencing.enrolled.contains((topic, partitions[n - 1])) {
            earlier.push(partitions[n - 1])
        } else {
            earlier
        }
    }
}

/// After the first `n` partitions were added to the transaction.
pub open spec fn all_enrolled(
    sequencing: producer::Sequencing,
    topic: Seq<char>,
    partitions: Seq<i32>,
    n: nat,
) -> producer::Sequencing
    decreases n,
{
    if n == 0 {
        sequencing
    } else {
        all_enrolled(sequencing, topic, partitions, (n - 1) as nat).enrolling(
            (topic, partitions[n - 1]),
        )
    }
}

impl Producer {
    /// Where a coordinator request goes now.
    pub fn coordinator(&self) -> (target: Target)
        requires
            self.well_formed(),
        ensures
            match target {
                Target::At(addr) => self@.coordinator == Some(addr@),
                Target::Any => self@.coordinator is None && self@.transactional_id is None,
                Target::Find(id) => self@.coordinator is None && self@.transactional_id == Some(
                    id@,
                ),
            },
    {
        match &self.coordinator {
            Some(addr) => Target::At(addr.clone()),
            None => match &self.transactional_id {
                Some(id) => Target::Find(id.clone()),
                None => Target::Any,
            },
        }
    }

    /// Takes the answer to a search for the coordinator.
    pub fn on_coordinator_found(
        &mut self,
        attempt: usize,
        code: i16,
        disposition: Disposition,
        host: &str,
        port: i32,
    ) -> (verdict: Verdict)
        requires
            old(self).well_formed(),
        ensures
            final(self).well_formed(),
            verdict@ == retry::coordinator_outcome(
                attempt,
                "FindCoordinator"@,
                code,
                disposition,
            ),
            final(self)@ == if code == 0 {
                Outbox {
                    coordinator: Some(client::address_of(host@, port as int)),
                    ..old(self)@
                }
            } else {
                old(self)@
            },
    {
        if code == 0 {
            self.coordinator = Some(client::address(host, port));
        }
        retry::coordinator_verdict(attempt, "FindCoordinator", code, disposition)
    }

    /// Takes a coordinator's answer to a request: tried again in place, found again
    /// where the coordinator moved, or failed; an answer that nothing mends fences the
    /// producer.
    pub fn on_coordinator_answer(
        &mut self,
        attempt: usize,
        op: &'static str,
        code: i16,
        disposition: Disposition,
    ) -> (verdict: Verdict)
        requires
            old(self).well_formed(),
        ensures
            final(self).well_formed(),
            verdict@ == retry::coordinator_outcome(attempt, op@, code, disposition),
            final(self)@ == if code == 0 {
                old(self)@
            } else if disposition == Disposition::FindCoordinator {
                Outbox { coordinator: None, ..old(self)@ }
            } else if disposition == Disposition::Fatal {
                Outbox { sequencing: old(self)@.sequencing.fenced(), ..old(self)@ }
            } else {
                old(self)@
            },
    {
        if code != 0 {
            match disposition {
                Disposition::FindCoordinator => {
                    self.coordinator = None;
                },
                Disposition::Fatal => {
                    self.state.fence();
                },
                _ => {},
            }
        }
        retry::coordinator_verdict(attempt, op, code, disposition)
    }

    /// Takes the end of a call to a group's coordinator: an answer that nothing mends
    /// fences the producer, and the transaction's own coordinator stays known.
    pub fn on_group_answer(&mut self, code: i16, disposition: Disposition)
        requires
            old(self).well_formed(),
        ensures
            final(self).well_formed(),
            final(self)@ == if code != 0 && disposition == Disposition::Fatal {
                Outbox { sequencing: old(self)@.sequencing.fenced(), ..old(self)@ }
            } else {
                old(self)@
            },
    {
        if code != 0 {
            if let Disposition::Fatal = disposition {
                self.state.fence();
            }
        }
    }

    /// The request for an identity.
    pub fn init_producer_id(&self) -> (request: InitProducerId)
        ensures
            client::optional_text(request.transactional_id) == self@.transactional_id,
            request.transaction_timeout_ms == self@.timeout_ms,
            request.producer_id == -1,
            request.producer_epoch == -1,
    {
        InitProducerId {
            transactional_id: match &self.transactional_id {
                Some(id) => Some(id.clone()),
                None => None,
            },
            transaction_timeout_ms: self.timeout_ms,
            producer_id: -1,
            producer_epoch: -1,
        }
    }

    /// Takes the identity that the coordinator issued.
    pub fn on_init_producer_id(&mut self, identity: ProducerIdentity)
        requires
            old(self).well_formed(),
        ensures
            final(self).well_formed(),
            final(self)@ == (Outbox {
                sequencing: old(self)@.sequencing.initialised(identity),
                ..old(self)@
            }),
    {
        self.state.on_init_producer_id(identity);
    }

    /// Opens a transaction.
    pub fn begin_transaction(&mut self) -> (result: Result<(), Error>)
        requires
            old(self).well_formed(),
        ensures
            final(self).well_formed(),
            final(self)@ == (Outbox {
                sequencing: old(self)@.sequencing.begun(),
                ..old(self)@
            }),
            match old(self)@.sequencing.refuses_begin() {
                Some(e) => result is Err && result->Err_0@ == Fault::Producer(e@),
                None => result is Ok,
            },
    {
        match self.state.begin_transaction() {
            Ok(()) => Ok(()),
            Err(e) => Err(Error::Producer(e)),
        }
    }

    /// Begins committing the open transaction.
    pub fn commit_transaction(&mut self) -> (result: Result<EndTxn, Error>)
        requires
            old(self).well_formed(),
        ensures
            final(self).well_formed(),
            ends(old(self)@, final(self)@, true, result),
            result matches Ok(r) ==> r.committed,
            result matches Ok(r) ==> Some(r.transactional_id@) == old(self)@.transactional_id
                && Some(ProducerIdentity { id: r.producer_id, epoch: r.producer_epoch })
                == old(self)@.sequencing.identity,
            result is Ok <==> old(self)@.sequencing.txn == TxnState::InTransaction
                && old(self)@.sequencing.identity is Some && old(self)@.transactional_id is Some,
    {
        self.end_transaction(true)
    }

    /// Begins aborting the open transaction. Its records stay in the log, and
    /// consumers of committed records filter them.
    pub fn abort_transaction(&mut self) -> (result: Result<EndTxn, Error>)
        requires
            old(self).well_formed(),
        ensures
            final(self).well_formed(),
            ends(old(self)@, final(self)@, false, result),
            result matches Ok(r) ==> !r.committed,
            result matches Ok(r) ==> Some(r.transactional_id@) == old(self)@.transactional_id
                && Some(ProducerIdentity { id: r.producer_id, epoch: r.producer_epoch })
                == old(self)@.sequencing.identity,
            result is Ok <==> old(self)@.sequencing.txn == TxnState::InTransaction
                && old(self)@.sequencing.identity is Some && old(self)@.transactional_id is Some,
    {
        self.end_transaction(false)
    }

    fn end_transaction(&mut self, committed: bool) -> (result: Result<EndTxn, Error>)
        requires
            old(self).well_formed(),
        ensures
            final(self).well_formed(),
            ends(old(self)@, final(self)@, committed, result),
    {
        match self.state.end_transaction() {
            Ok(()) => {},
            Err(e) => {
                return Err(Error::Producer(e));
            },
        }
        let identity = match self.state.identity() {
            Some(identity) => identity,
            None => {
                return Err(Error::Missing("producer id"));
            },
        };
        match &self.transactional_id {
            Some(id) => Ok(
                EndTxn {
                    transactional_id: id.clone(),
                    producer_id: identity.id,
                    producer_epoch: identity.epoch,
                    committed,
                },
            ),
            None => Err(Error::Missing("transactional id")),
        }
    }

    /// Records that the end of the transaction was acknowledged.
    pub fn on_end_transaction(&mut self)
        requires
            old(self).well_formed(),
        ensures
            final(self).well_formed(),
            final(self)@ == (Outbox {
                sequencing: old(self)@.sequencing.ended(),
                ..old(self)@
            }),
    {
        self.state.on_end_transaction();
    }

    /// The request that adds partitions of a topic to the open transaction, all in one;
    /// `None` where none of them needs it. The coordinator must know a partition before
    /// records are produced to it, or it cannot fence it at the commit.
    pub fn enroll_all(&self, topic: &str, partitions: &[i32]) -> (request: Result<
        Option<Enrollment>,
        Error,
    >)
        requires
            self.well_formed(),
        ensures
            ({
                let needed = not_enrolled(
                    self@.sequencing,
                    topic@,
                    partitions@,
                    partitions@.len(),
                );
                if needed.len() == 0 {
                    request matches Ok(None)
                } else if self@.sequencing.identity is None {
                    request is Err && request->Err_0@ == Fault::Missing("producer id"@)
                } else if self@.transactional_id is None {
                    request is Err && request->Err_0@ == Fault::Missing("transactional id"@)
                } else {
                    &&& request matches Ok(Some(r))
                    &&& Some(r.transactional_id@) == self@.transactional_id
                    &&& Some(
                        ProducerIdentity { id: r.producer_id, epoch: r.producer_epoch },
                    ) == self@.sequencing.identity
                    &&& r.topic@ == topic@
                    &&& r.partitions@ == needed
                }
            }),
    {
        let mut needed: Vec<i32> = Vec::new();
        let mut i: usize = 0;
        while i < partitions.len()
            invariant
                self.well_formed(),
                i <= partitions@.len(),
                needed@ == not_enrolled(self@.sequencing, topic@, partitions@, i as nat),
            decreases partitions@.len() - i,
        {
            if self.state.needs_enrollment(topic, partitions[i]) {
                needed.push(partitions[i]);
            }
            i = i + 1;
        }
        if needed.len() == 0 {
            return Ok(None);
        }
        let identity = match self.state.identity() {
            Some(identity) => identity,
            None => {
                return Err(Error::Missing("producer id"));
            },
        };
        match &self.transactional_id {
            Some(id) => Ok(
                Some(
                    Enrollment {
                        transactional_id: id.clone(),
                        producer_id: identity.id,
                        producer_epoch: identity.epoch,
                        topic: topic.to_owned(),
                        partitions: needed,
                    },
                ),
            ),
            None => Err(Error::Missing("transactional id")),
        }
    }

    /// Records that these partitions were added to the transaction.
    pub fn on_enrolled(&mut self, topic: &str, partitions: &[i32])
        requires
            old(self).well_formed(),
        ensures
            final(self).well_formed(),
            final(self)@ == (Outbox {
                sequencing: all_enrolled(
                    old(self)@.sequencing,
                    topic@,
                    partitions@,
                    partitions@.len(),
                ),
                ..old(self)@
            }),
    {
        let ghost before = self@;
        let mut i: usize = 0;
        while i < partitions.len()
            invariant
                self.well_formed(),
                i <= partitions@.len(),
                self@ == (Outbox {
                    sequencing: all_enrolled(
                        before.sequencing,
                        topic@,
                        partitions@,
                        i as nat,
                    ),
                    ..before
                }),
            decreases partitions@.len() - i,
        {
            self.state.on_enrolled(topic, partitions[i]);
            proof {
                lemma_enrolled_keeps(before.sequencing, topic@, partitions@, i as nat);
            }
            i = i + 1;
        }
    }
}

proof fn lemma_enrolled_keeps(
    sequencing: producer::Sequencing,
    topic: Seq<char>,
    partitions: Seq<i32>,
    n: nat,
)
    ensures
        all_enrolled(sequencing, topic, partitions, n).transactional == sequencing.transactional,
    decreases n,
{
    if n > 0 {
        lemma_enrolled_keeps(sequencing, topic, partitions, (n - 1) as nat);
    }
}

/// What beginning to end a transaction does and asks for.
pub open spec fn ends(
    before: Outbox,
    after: Outbox,
    committed: bool,
    result: Result<EndTxn, Error>,
) -> bool {
    &&& after == (Outbox { sequencing: before.sequencing.ending(), ..before })
    &&& match before.sequencing.refuses_end() {
        Some(e) => result is Err && result->Err_0@ == Fault::Producer(e@),
        None => if before.sequencing.identity is None {
            result is Err && result->Err_0@ == Fault::Missing("producer id"@)
        } else if before.transactional_id is None {
            result is Err && result->Err_0@ == Fault::Missing("transactional id"@)
        } else {
            &&& result matches Ok(r)
            &&& Some(r.transactional_id@) == before.transactional_id
            &&& Some(ProducerIdentity { id: r.producer_id, epoch: r.producer_epoch })
                == before.sequencing.identity
            &&& r.committed == committed
        },
    }
}

/// Records as their batch carries them: under one identity, offsets from zero, and
/// sequences from `base`.
pub open spec fn sealed(
    list: Seq<Message>,
    identity: ProducerIdentity,
    transactional: bool,
    base: i32,
    now: i64,
) -> Seq<batch::Sealed> {
    Seq::new(
        list.len(),
        |i: int|
            batch::Sealed {
                transactional,
                control: false,
                partition_leader_epoch: 0,
                producer_id: identity.id,
                producer_epoch: identity.epoch,
                offset: i as i64,
                sequence: (base + i) as i32,
                timestamp: match list[i].timestamp {
                    Some(t) => t,
                    None => now,
                },
                key: list[i].key,
                value: list[i].value,
            },
    )
}

/// The bytes of a batch, or why it cannot be encoded.
pub open spec fn encoded(list: Seq<batch::Sealed>, codec: CompressionCodec) -> Result<
    Seq<u8>,
    Seq<char>,
> {
    if batch::timestamps_subtract(list) {
        batch::encoded(list, codec)
    } else {
        Err("timestamps within the batch are too far apart"@)
    }
}

/// What queueing a batch does.
pub open spec fn queued_batch(
    before: Outbox,
    after: Outbox,
    slot: (Seq<char>, i32),
    list: Seq<batch::Sealed>,
) -> bool {
    let queue = after.pending[slot];
    &&& after == (Outbox {
        sequencing: before.sequencing.allocated(slot, list.len() as i32),
        pending: before.pending.insert(slot, queue),
        ..before
    })
    &&& queue.len() > 0
    &&& queue.drop_last() == window::queue_of(before.pending, slot)
    &&& encoded(list, before.compression) == Ok::<Seq<u8>, Seq<char>>(
        buffer::contents(queue.last()),
    )
    &&& written_as(buffer::contents(queue.last()), list)
}

/// Whether a batch says whose it is and which sequences it takes, and whether reading
/// it gives the records back.
pub open spec fn written_as(bytes: Seq<u8>, list: Seq<batch::Sealed>) -> bool {
    &&& batch::stamped(bytes, list)
    &&& batch::bulk(list, list.len()) <= batch::ORDINARY_BULK ==> batch::reads_back(bytes, list)
}

fn encode_batch(
    records: &[ProducerRecord],
    range: SequenceRange,
    identity: ProducerIdentity,
    transactional: bool,
    codec: CompressionCodec,
    now: i64,
) -> (bytes: Result<Bytes, String>)
    requires
        0 < records@.len() <= i32::MAX,
        range.base + records@.len() <= i32::MAX,
    ensures
        ({
            let list = sealed(messages(records@), identity, transactional, range.base, now);
            &&& records::contents_or_text(bytes) == encoded(list, codec)
            &&& bytes matches Ok(b) ==> written_as(buffer::contents(b), list)
        }),
{
    let ghost list = sealed(messages(records@), identity, transactional, range.base, now);
    let mut out: Vec<Outgoing> = Vec::new();
    let mut oldest: i64 = i64::MAX;
    let mut newest: i64 = i64::MIN;
    let mut i: usize = 0;
    while i < records.len()
        invariant
            i <= records@.len() <= i32::MAX,
            range.base + records@.len() <= i32::MAX,
            list == sealed(messages(records@), identity, transactional, range.base, now),
            out@.len() == i,
            forall|k: int| 0 <= k < i ==> (#[trigger] out@[k])@ == list[k],
            forall|k: int| 0 <= k < i ==> oldest <= (#[trigger] list[k]).timestamp <= newest,
            i > 0 ==> exists|k: int| 0 <= k < i && (#[trigger] list[k]).timestamp == oldest,
            i > 0 ==> exists|k: int| 0 <= k < i && (#[trigger] list[k]).timestamp == newest,
        decreases records@.len() - i,
    {
        let record = &records[i];
        assert(messages(records@)[i as int] == record@);
        let timestamp: i64 = match record.timestamp {
            Some(t) => t,
            None => now,
        };
        out.push(
            Outgoing {
                transactional,
                control: false,
                partition_leader_epoch: 0,
                producer_id: identity.id,
                producer_epoch: identity.epoch,
                offset: i as i64,
                sequence: range.base + i as i32,
                timestamp,
                key: copy(&record.key),
                value: copy(&record.value),
            },
        );
        assert(out@[i as int]@ == list[i as int]);
        if timestamp < oldest || i == 0 {
            oldest = timestamp;
        }
        if timestamp > newest || i == 0 {
            newest = timestamp;
        }
        assert(list[i as int].timestamp == timestamp);
        i = i + 1;
    }
    assert(batch::sealed_of(out@) =~= list);
    let span: i128 = newest as i128 - oldest as i128;
    if span > i64::MAX as i128 {
        proof {
            let a = choose|k: int| 0 <= k < i && (#[trigger] list[k]).timestamp == oldest;
            let b = choose|k: int| 0 <= k < i && (#[trigger] list[k]).timestamp == newest;
            assert(list[b].timestamp - list[a].timestamp > i64::MAX);
        }
        return Err("timestamps within the batch are too far apart".to_owned());
    }
    batch::encode(out, codec)
}

impl Producer {
    /// Whether a partition has sequences left for a batch of this many records.
    pub fn has_room(&self, topic: &str, partition: i32, count: usize) -> (yes: bool)
        requires
            self.well_formed(),
        ensures
            yes == (self@.sequencing.next((topic@, partition)) + count <= i32::MAX),
    {
        let next: i32 = self.state.next_sequence(topic, partition);
        next as i128 + count as i128 <= 0x7fff_ffff
    }

    /// Queues a batch for a partition **without sending anything**.
    ///
    /// Sequences are reserved and the batch is encoded here, in call order, once:
    /// a retry re-sends the same bytes with the same sequences, so a broker that
    /// already has them deduplicates instead of writing twice. `now` is milliseconds
    /// since the epoch, for records without a timestamp.
    pub fn enqueue(
        &mut self,
        topic: &str,
        partition: i32,
        records: &[ProducerRecord],
        now: i64,
    ) -> (result: Result<(), Error>)
        requires
            old(self).well_formed(),
            records@.len() <= i32::MAX ==> old(self)@.sequencing.next((topic@, partition))
                + records@.len() <= i32::MAX,
        ensures
            final(self).well_formed(),
            ({
                let before = old(self)@;
                let after = final(self)@;
                let slot = (topic@, partition);
                let count = records@.len();
                let reserved = Outbox {
                    sequencing: before.sequencing.allocated(slot, count as i32),
                    ..before
                };
                if count == 0 {
                    result is Ok && after == before
                } else if count > i32::MAX {
                    result is Err && result->Err_0@ == Fault::Missing("batch size"@) && after
                        == before
                } else if before.sequencing.refuses_batch(slot) is Some {
                    result is Err && result->Err_0@ == Fault::Producer(
                        before.sequencing.refuses_batch(slot).unwrap(),
                    ) && after == before
                } else if before.sequencing.identity is None {
                    result is Err && result->Err_0@ == Fault::Missing("producer id"@) && after
                        == reserved
                } else {
                    let list = sealed(
                        messages(records@),
                        before.sequencing.identity.unwrap(),
                        before.transactional_id is Some,
                        before.sequencing.next(slot),
                        now,
                    );
                    match encoded(list, before.compression) {
                        Err(said) => result is Err && result->Err_0@ == Fault::Core(
                            Flaw::Encode(said),
                        ) && after == reserved,
                        Ok(_) => result is Ok && queued_batch(before, after, slot, list),
                    }
                }
            }),
            result is Ok && records@.len() > 0 ==> {
                let bytes = buffer::contents(final(self)@.pending[(topic@, partition)].last());
                let identity = old(self)@.sequencing.identity;
                let next = old(self)@.sequencing.next((topic@, partition));
                &&& bytes.len() >= 61
                &&& ((bytes[22] / 16) % 2 == 1) == (old(self)@.transactional_id is Some)
                &&& (bytes[22] / 32) % 2 == 0
                &&& identity == Some(
                    ProducerIdentity { id: wire::i64_of(bytes, 43), epoch: wire::i16_of(bytes, 51) },
                )
                &&& wire::i32_of(bytes, 53) == next
                &&& wire::i32_of(bytes, 57) == records@.len()
                &&& final(self)@.sequencing.next((topic@, partition)) == next + records@.len()
            },
    {
        if records.len() == 0 {
            return Ok(());
        }
        if records.len() > 0x7fff_ffff {
            return Err(Error::Missing("batch size"));
        }
        let ghost before = self@;
        let ghost slot = (topic@, partition);
        let range = match self.state.allocate(topic, partition, records.len() as i32) {
            Ok(range) => range,
            Err(e) => {
                assert(self@.sequencing == before.sequencing);
                return Err(Error::Producer(e));
            },
        };
        let identity = match self.state.identity() {
            Some(identity) => identity,
            None => {
                return Err(Error::Missing("producer id"));
            },
        };
        let bytes = encode_batch(
            records,
            range,
            identity,
            self.transactional_id.is_some(),
            self.compression,
            now,
        );
        match bytes {
            Err(said) => Err(Error::Core(error::Error::Codec(CodecFault::Encode(said)))),
            Ok(b) => {
                let ghost held = self.pending@;
                let mut queue: VecDeque<Bytes> = match self.pending.remove(topic, partition) {
                    Some(queue) => queue,
                    None => VecDeque::new(),
                };
                let ghost earlier = queue@;
                queue.push_back(b);
                self.pending.insert(topic, partition, queue);
                proof {
                    assert(self.pending@[slot]@ == earlier.push(b));
                    assert(earlier.push(b).drop_last() =~= earlier);
                    assert(self@.pending =~= before.pending.insert(slot, earlier.push(b)));
                    let list = sealed(
                        messages(records@),
                        identity,
                        before.transactional_id is Some,
                        range.base,
                        now,
                    );
                    assert(list.len() == records@.len());
                    assert forall|k: (Seq<char>, i32)| #[trigger]
                        self.pending@.dom().contains(k) implies self.pending@[k]@.len() > 0 by {
                        if k != slot {
                            assert(held.dom().contains(k));
                        }
                    }
                }
                Ok(())
            },
        }
    }
}

/// Two batches of one partition that are queued one after the other stand one behind
/// the other, and carry sequences one after the other: the second begins where the
/// first ends. Nothing gaps, and nothing is written twice.
pub proof fn law_batches_carry_contiguous_sequences(
    start: Outbox,
    middle: Outbox,
    end: Outbox,
    slot: (Seq<char>, i32),
    identity: ProducerIdentity,
    transactional: bool,
    a: Seq<Message>,
    b: Seq<Message>,
    now_a: i64,
    now_b: i64,
)
    requires
        start.sequencing.refuses_batch(slot) is None,
        a.len() > 0,
        b.len() > 0,
        start.sequencing.next(slot) + a.len() + b.len() <= i32::MAX,
        queued_batch(
            start,
            middle,
            slot,
            sealed(a, identity, transactional, start.sequencing.next(slot), now_a),
        ),
        queued_batch(
            middle,
            end,
            slot,
            sealed(b, identity, transactional, middle.sequencing.next(slot), now_b),
        ),
    ensures
        ({
            let n = end.pending[slot].len() as int;
            let x = buffer::contents(end.pending[slot][n - 2]);
            let y = buffer::contents(end.pending[slot][n - 1]);
            &&& end.pending[slot].take(n - 2) == window::queue_of(start.pending, slot)
            &&& wire::i32_of(x, batch::BASE_SEQUENCE as int) == start.sequencing.next(slot)
            &&& wire::i32_of(y, batch::BASE_SEQUENCE as int) == wire::i32_of(
                x,
                batch::BASE_SEQUENCE as int,
            ) + wire::i32_of(x, records::RECORD_COUNT as int)
            &&& end.sequencing.next(slot) == wire::i32_of(y, batch::BASE_SEQUENCE as int)
                + wire::i32_of(y, records::RECORD_COUNT as int)
        }),
{
    let n = end.pending[slot].len() as int;
    let q = end.pending[slot];
    assert(middle.pending[slot] == q.drop_last());
    assert(q[n - 2] == middle.pending[slot].last());
    assert(q.take(n - 2) =~= middle.pending[slot].drop_last());
}

/// Roughly what a record takes on the wire.
pub open spec fn charge(message: Message) -> nat {
    batch::optional_len(message.key) + batch::optional_len(message.value) + RECORD_OVERHEAD as nat
}

pub open spec fn capped(n: nat) -> usize {
    if n <= usize::MAX {
        n as usize
    } else {
        usize::MAX
    }
}

/// What is staged for a partition once another record arrived.
pub open spec fn accumulated(
    staged: Map<(Seq<char>, i32), Accumulating>,
    slot: (Seq<char>, i32),
    message: Message,
    now: u64,
) -> Accumulating {
    if staged.dom().contains(slot) {
        Accumulating {
            records: staged[slot].records.push(message),
            bytes: capped(staged[slot].bytes as nat + charge(message)),
            since: staged[slot].since,
        }
    } else {
        Accumulating { records: seq![message], bytes: capped(charge(message)), since: now }
    }
}

/// Whether what is staged is full or overdue. What is merely partial and recent waits:
/// that is what the linger is for.
pub open spec fn is_due(outbox: Outbox, staged: Accumulating, now: u64) -> bool {
    staged.bytes >= outbox.batch_size || now - staged.since >= outbox.linger || outbox.linger == 0
}

/// What is staged for a partition after the first `n` of some records arrived, each with
/// its time.
pub open spec fn after_arrivals(
    staged: Map<(Seq<char>, i32), Accumulating>,
    slot: (Seq<char>, i32),
    arrivals: Seq<(Message, u64)>,
    n: nat,
) -> Map<(Seq<char>, i32), Accumulating>
    decreases n,
{
    if n == 0 {
        staged
    } else {
        let earlier = after_arrivals(staged, slot, arrivals, (n - 1) as nat);
        let (message, now) = arrivals[n - 1];
        earlier.insert(slot, accumulated(earlier, slot, message, now))
    }
}

/// A steady stream is sent all the same: the linger counts from the first record that was
/// staged, however many arrive behind it.
pub proof fn law_a_steady_stream_is_still_sent(
    outbox: Outbox,
    slot: (Seq<char>, i32),
    arrivals: Seq<(Message, u64)>,
    n: nat,
    now: u64,
)
    requires
        !outbox.staged.dom().contains(slot),
        0 < n <= arrivals.len(),
        now - arrivals[0].1 >= outbox.linger,
    ensures
        ({
            let staged = after_arrivals(outbox.staged, slot, arrivals, n);
            &&& staged.dom().contains(slot)
            &&& staged[slot].since == arrivals[0].1
            &&& is_due(outbox, staged[slot], now)
        }),
    decreases n,
{
    reveal_with_fuel(after_arrivals, 2);
    if n > 1 {
        law_a_steady_stream_is_still_sent(outbox, slot, arrivals, (n - 1) as nat, now);
    }
}

/// Those of the first `n` keys whose staged records are due.
pub open spec fn due(outbox: Outbox, keys: Seq<(Seq<char>, i32)>, now: u64, n: nat) -> Seq<
    (Seq<char>, i32),
>
    decreases n,
{
    if n == 0 {
        Seq::empty()
    } else {
        let earlier = due(outbox, keys, now, (n - 1) as nat);
        if is_due(outbox, outbox.staged[keys[n - 1]], now) {
            earlier.push(keys[n - 1])
        } else {
            earlier
        }
    }
}

/// When what is staged is overdue.
pub open spec fn deadline(outbox: Outbox, staged: Accumulating) -> u64 {
    if staged.since + outbox.linger <= u64::MAX {
        (staged.since + outbox.linger) as u64
    } else {
        u64::MAX
    }
}

/// How many batches the first `n` queues hold.
pub open spec fn batches_in(
    pending: Map<(Seq<char>, i32), Seq<Bytes>>,
    keys: Seq<(Seq<char>, i32)>,
    n: nat,
) -> nat
    decreases n,
{
    if n == 0 {
        0
    } else {
        batches_in(pending, keys, (n - 1) as nat) + pending[keys[n - 1]].len()
    }
}

/// How many batches are queued, with one more for every partition that has records
/// staged.
pub open spec fn queued_in(outbox: Outbox) -> nat {
    let keys = slots::keys_of(outbox.pending.dom());
    batches_in(outbox.pending, keys, keys.len()) + slots::keys_of(outbox.staged.dom()).len()
}

fn optional_size(bytes: &Option<Bytes>) -> (n: usize)
    ensures
        n == batch::optional_len(records::optional_contents(*bytes)),
{
    match bytes {
        Some(b) => buffer::len(b),
        None => 0,
    }
}

impl Producer {
    /// Stages one record for a partition. It goes out when a batch fills or its linger
    /// is over.
    pub fn produce_to(&mut self, topic: &str, partition: i32, record: ProducerRecord, now: u64)
        requires
            old(self).well_formed(),
        ensures
            final(self).well_formed(),
            final(self)@ == (Outbox {
                staged: old(self)@.staged.insert(
                    (topic@, partition),
                    accumulated(old(self)@.staged, (topic@, partition), record@, now),
                ),
                ..old(self)@
            }),
    {
        let ghost before = self@;
        let ghost slot = (topic@, partition);
        let ghost held = self.staged@;
        let size: usize = optional_size(&record.key).saturating_add(
            optional_size(&record.value),
        ).saturating_add(RECORD_OVERHEAD);
        let mut staged = match self.staged.remove(topic, partition) {
            Some(staged) => staged,
            None => Staged { records: Vec::new(), bytes: 0, since: now },
        };
        let ghost earlier = staged@;
        staged.records.push(record);
        staged.bytes = staged.bytes.saturating_add(size);
        let ghost now_staged = staged@;
        self.staged.insert(topic, partition, staged);
        proof {
            assert(before.staged.dom().contains(slot) == held.dom().contains(slot));
            assert(now_staged.records =~= earlier.records.push(record@));
            if !before.staged.dom().contains(slot) {
                assert(now_staged.records =~= seq![record@]);
            }
            assert(now_staged == accumulated(before.staged, slot, record@, now));
            assert(self@.staged =~= before.staged.insert(slot, now_staged));
        }
    }

    /// The partitions whose staged records are full or overdue, in order.
    pub fn ready(&self, now: u64) -> (keys: Vec<TopicPartition>)
        requires
            self.well_formed(),
        ensures
            ({
                let all = slots::keys_of(self@.staged.dom());
                group::slots_of(keys@) == due(self@, all, now, all.len())
            }),
    {
        let entries = self.staged.entries();
        let ghost all = slots::entry_keys(entries@);
        proof {
            slots::lemma_entry_keys(entries@);
            assert(self@.staged.dom() =~= self.staged@.dom());
        }
        let mut keys: Vec<TopicPartition> = Vec::new();
        assert(group::slots_of(keys@) =~= Seq::empty());
        let mut i: usize = 0;
        while i < entries.len()
            invariant
                i <= entries@.len(),
                self.staged@ == slots::as_map(entries@),
                slots::distinct_keys(entries@),
                all == slots::entry_keys(entries@),
                group::slots_of(keys@) == due(self@, all, now, i as nat),
            decreases entries@.len() - i,
        {
            let staged = &entries[i].1;
            proof {
                slots::lemma_at(entries@, i as int);
                assert(self@.staged[all[i as int]] == staged@);
            }
            let ghost earlier = keys@;
            if staged.bytes >= self.batch_size || now.saturating_sub(staged.since) >= self.linger {
                keys.push(entries[i].0.clone());
                assert(group::slots_of(keys@) =~= group::slots_of(earlier).push(all[i as int]));
            }
            i = i + 1;
        }
        keys
    }

    /// Every partition that has something staged, in order.
    pub fn staged_keys(&self) -> (keys: Vec<TopicPartition>)
        requires
            self.well_formed(),
        ensures
            group::slots_of(keys@) == slots::keys_of(self@.staged.dom()),
            slots::key_list(group::slots_of(keys@), self@.staged.dom()),
    {
        assert(self@.staged.dom() =~= self.staged@.dom());
        self.staged.keys()
    }

    /// Takes a partition's staged records, to be queued.
    pub fn take_staged(&mut self, topic: &str, partition: i32) -> (records: Option<
        Vec<ProducerRecord>,
    >)
        requires
            old(self).well_formed(),
        ensures
            final(self).well_formed(),
            final(self)@ == (Outbox {
                staged: old(self)@.staged.remove((topic@, partition)),
                ..old(self)@
            }),
            match records {
                Some(list) => old(self)@.staged.dom().contains((topic@, partition)) && messages(
                    list@,
                ) == old(self)@.staged[(topic@, partition)].records,
                None => !old(self)@.staged.dom().contains((topic@, partition)),
            },
    {
        let ghost before = self@;
        let taken = self.staged.remove(topic, partition);
        assert(self@.staged =~= before.staged.remove((topic@, partition)));
        match taken {
            Some(staged) => Some(staged.records),
            None => None,
        }
    }

    /// When the oldest staged records are overdue, if anything is staged. An event loop
    /// with nothing else to do sleeps until then: this producer owns no timer.
    pub fn linger_deadline(&self) -> (at: Option<u64>)
        requires
            self.well_formed(),
        ensures
            match at {
                None => self@.staged == Map::<(Seq<char>, i32), Accumulating>::empty(),
                Some(t) => {
                    &&& exists|slot: (Seq<char>, i32)| #[trigger]
                        self@.staged.dom().contains(slot) && deadline(self@, self@.staged[slot])
                            == t
                    &&& forall|slot: (Seq<char>, i32)| #[trigger]
                        self@.staged.dom().contains(slot) ==> t <= deadline(
                            self@,
                            self@.staged[slot],
                        )
                },
            },
    {
        let entries = self.staged.entries();
        let mut at: Option<u64> = None;
        let mut i: usize = 0;
        while i < entries.len()
            invariant
                i <= entries@.len(),
                self.staged@ == slots::as_map(entries@),
                slots::distinct_keys(entries@),
                at is None <==> i == 0,
                at matches Some(t) ==> exists|k: int|
                    0 <= k < i && deadline(self@, (#[trigger] entries@[k]).1@) == t,
                at matches Some(t) ==> forall|k: int|
                    0 <= k < i ==> t <= deadline(self@, (#[trigger] entries@[k]).1@),
            decreases entries@.len() - i,
        {
            let due_at: u64 = entries[i].1.since.saturating_add(self.linger);
            assert(due_at == deadline(self@, entries@[i as int].1@));
            match at {
                Some(t) if t <= due_at => {},
                _ => {
                    at = Some(due_at);
                },
            }
            i = i + 1;
        }
        proof {
            if let Some(t) = at {
                let k = choose|k: int|
                    0 <= k < entries@.len() && deadline(self@, (#[trigger] entries@[k]).1@) == t;
                slots::lemma_at(entries@, k);
                assert(self@.staged.dom().contains(entries@[k].0@));
                assert forall|slot: (Seq<char>, i32)| #[trigger]
                    self@.staged.dom().contains(slot) implies t <= deadline(
                    self@,
                    self@.staged[slot],
                ) by {
                    assert(slots::has_key(entries@, slot));
                    let j = slots::key_at(entries@, slot);
                    assert(entries@[j].0@ == slot);
                    slots::lemma_at(entries@, j);
                }
            } else {
                assert(self@.staged =~= Map::empty());
            }
        }
        at
    }

    /// How many batches are queued and not yet acknowledged. What is staged for a
    /// partition counts as the one batch it will become.
    pub fn queued(&self) -> (n: usize)
        requires
            self.well_formed(),
        ensures
            n == capped(queued_in(self@)),
    {
        let entries = self.pending.entries();
        let ghost keys = slots::entry_keys(entries@);
        proof {
            slots::lemma_entry_keys(entries@);
            assert(self@.pending.dom() =~= self.pending@.dom());
            assert(self@.staged.dom() =~= self.staged@.dom());
        }
        let mut n: usize = 0;
        let mut i: usize = 0;
        while i < entries.len()
            invariant
                i <= entries@.len(),
                self.pending@ == slots::as_map(entries@),
                slots::distinct_keys(entries@),
                keys == slots::entry_keys(entries@),
                n == capped(batches_in(self@.pending, keys, i as nat)),
            decreases entries@.len() - i,
        {
            proof {
                slots::lemma_at(entries@, i as int);
                assert(self@.pending[keys[i as int]] == entries@[i as int].1@);
            }
            n = n.saturating_add(entries[i].1.len());
            i = i + 1;
        }
        n.saturating_add(self.staged.len())
    }
}

/// How far sending everything that is queued has come.
#[derive(Debug)]
pub struct Flush {
    attempt: usize,
    written: Vec<(String, i32, i64)>,
}

/// What a [`Flush`] stands for.
pub ghost struct Progress {
    pub attempt: usize,
    pub written: Seq<(Seq<char>, i32, i64)>,
}

impl View for Flush {
    type V = Progress;

    closed spec fn view(&self) -> Progress {
        Progress { attempt: self.attempt, written: window::writes_of(self.written@) }
    }
}

impl Flush {
    /// A flush that has not sent anything yet.
    pub fn new() -> (flush: Self)
        ensures
            flush@ == (Progress { attempt: 0, written: Seq::empty() }),
    {
        let flush = Flush { attempt: 0, written: Vec::new() };
        assert(flush@.written =~= Seq::empty());
        flush
    }

    /// What was written, in order, once nothing is queued any more.
    pub fn finish(self) -> (written: Vec<(String, i32, i64)>)
        ensures
            window::in_write_order(window::writes_of(written@)),
            window::writes_of(written@).to_multiset() == self@.written.to_multiset(),
    {
        window::sorted(self.written)
    }
}

/// Which way a window goes.
#[derive(Debug)]
pub enum Routed {
    /// The partitions by the address of the broker that leads them, and how many rounds
    /// the window has.
    Window { by_broker: Vec<(String, Vec<TopicPartition>)>, depth: usize },
    /// No partition has a leader yet, as while a topic is created: wait, and ask again.
    Wait { wait_ms: u64 },
    Failed(Error),
}

/// What a list of optional addresses stands for.
pub open spec fn leaders_of(leaders: Seq<Option<String>>) -> Seq<Option<Seq<char>>> {
    Seq::new(leaders.len(), |i: int| client::optional_text(leaders[i]))
}

/// Those of the first `n` partitions that have a leader, each with its address.
pub open spec fn with_leaders(
    keys: Seq<(Seq<char>, i32)>,
    leaders: Seq<Option<Seq<char>>>,
    n: nat,
) -> Seq<(Seq<char>, (Seq<char>, i32))>
    decreases n,
{
    if n == 0 {
        Seq::empty()
    } else {
        let earlier = with_leaders(keys, leaders, (n - 1) as nat);
        match leaders[n - 1] {
            Some(addr) => earlier.push((addr, keys[n - 1])),
            None => earlier,
        }
    }
}

/// The longest queue among the first `n` routed partitions.
pub open spec fn longest(
    pending: Map<(Seq<char>, i32), Seq<Bytes>>,
    pairs: Seq<(Seq<char>, (Seq<char>, i32))>,
    n: nat,
) -> nat
    decreases n,
{
    if n == 0 {
        0
    } else {
        let earlier = longest(pending, pairs, (n - 1) as nat);
        let len = window::queue_of(pending, pairs[n - 1].1).len();
        if len > earlier {
            len
        } else {
            earlier
        }
    }
}

/// What a list of brokers with their partitions stands for.
pub open spec fn brokers_of(list: Seq<(String, Vec<TopicPartition>)>) -> Seq<
    (Seq<char>, Seq<(Seq<char>, i32)>),
> {
    Seq::new(list.len(), |g: int| (list[g].0@, group::slots_of(list[g].1@)))
}

/// Those of the first `n` partitions that have a batch for a round.
pub open spec fn taking(
    pending: Map<(Seq<char>, i32), Seq<Bytes>>,
    slots: Seq<(Seq<char>, i32)>,
    round: nat,
    n: nat,
) -> Seq<(Seq<char>, i32)>
    decreases n,
{
    if n == 0 {
        Seq::empty()
    } else {
        let earlier = taking(pending, slots, round, (n - 1) as nat);
        if window::queue_of(pending, slots[n - 1]).len() > round {
            earlier.push(slots[n - 1])
        } else {
            earlier
        }
    }
}

/// What the first `n` brokers are sent in a round: each the partitions that have a
/// batch for it, and nothing where none has.
pub open spec fn round_of(
    pending: Map<(Seq<char>, i32), Seq<Bytes>>,
    brokers: Seq<(Seq<char>, Seq<(Seq<char>, i32)>)>,
    round: nat,
    n: nat,
) -> Seq<(Seq<char>, Seq<(Seq<char>, i32)>)>
    decreases n,
{
    if n == 0 {
        Seq::empty()
    } else {
        let earlier = round_of(pending, brokers, round, (n - 1) as nat);
        let slots = brokers[n - 1].1;
        let these = taking(pending, slots, round, slots.len());
        if these.len() > 0 {
            earlier.push((brokers[n - 1].0, these))
        } else {
            earlier
        }
    }
}

/// One partition's batch in a request.
#[derive(Debug)]
pub struct PartitionData {
    pub index: i32,
    pub records: Bytes,
}

/// One request to write: the batches of one round that one broker leads.
#[derive(Debug)]
pub struct ProduceRequest {
    pub transactional_id: Option<String>,
    pub acks: i16,
    pub timeout_ms: i32,
    /// By topic.
    pub topics: Vec<(String, Vec<PartitionData>)>,
}

/// The batches that the first `n` partitions have for a round.
pub open spec fn request_entries(
    pending: Map<(Seq<char>, i32), Seq<Bytes>>,
    slots: Seq<(Seq<char>, i32)>,
    round: nat,
    n: nat,
) -> Seq<(Seq<char>, (i32, Seq<u8>))>
    decreases n,
{
    if n == 0 {
        Seq::empty()
    } else {
        let earlier = request_entries(pending, slots, round, (n - 1) as nat);
        let queue = window::queue_of(pending, slots[n - 1]);
        if queue.len() > round {
            earlier.push(
                (slots[n - 1].0, (slots[n - 1].1, buffer::contents(queue[round as int]))),
            )
        } else {
            earlier
        }
    }
}

/// What a request's topics stand for.
pub open spec fn topic_data(topics: Seq<(String, Vec<PartitionData>)>) -> Seq<
    (Seq<char>, Seq<(i32, Seq<u8>)>),
> {
    Seq::new(
        topics.len(),
        |g: int|
            (
                topics[g].0@,
                topics[g].1@.map_values(
                    |d: PartitionData| (d.index, buffer::contents(d.records)),
                ),
            ),
    )
}

impl Producer {
    /// Whether nothing is queued.
    pub fn is_idle(&self) -> (yes: bool)
        ensures
            yes == (self@.pending == Map::<(Seq<char>, i32), Seq<Bytes>>::empty()),
    {
        proof {
            if self@.pending == Map::<(Seq<char>, i32), Seq<Bytes>>::empty() {
                assert(self.pending@ =~= Map::empty()) by {
                    assert forall|slot: (Seq<char>, i32)| !self.pending@.dom().contains(slot) by {
                        assert(!self@.pending.dom().contains(slot));
                    }
                }
            } else if self.pending@ == Map::<(Seq<char>, i32), VecDeque<Bytes>>::empty() {
                assert(self@.pending =~= Map::empty());
            }
        }
        self.pending.is_empty()
    }

    /// The partitions that have something queued, in order.
    pub fn pending_keys(&self) -> (keys: Vec<TopicPartition>)
        requires
            self.well_formed(),
        ensures
            group::slots_of(keys@) == slots::keys_of(self@.pending.dom()),
            slots::key_list(group::slots_of(keys@), self@.pending.dom()),
    {
        assert(self@.pending.dom() =~= self.pending@.dom());
        self.pending.keys()
    }

    fn queue_len(&self, topic: &str, partition: i32) -> (n: usize)
        requires
            self.well_formed(),
        ensures
            n == window::queue_of(self@.pending, (topic@, partition)).len(),
    {
        match self.pending.get(topic, partition) {
            Some(queue) => queue.len(),
            None => 0,
        }
    }

    /// Routes what is queued: `leaders` has the address of each pending partition's
    /// leader, in the order of [`Producer::pending_keys`], or none.
    pub fn route(&self, flush: &mut Flush, leaders: Vec<Option<String>>) -> (routed: Routed)
        requires
            self.well_formed(),
            self@.pending != Map::<(Seq<char>, i32), Seq<Bytes>>::empty(),
            leaders@.len() == slots::keys_of(self@.pending.dom()).len(),
            old(flush)@.attempt < retry::MAX_RETRIES,
        ensures
            ({
                let keys = slots::keys_of(self@.pending.dom());
                let pairs = with_leaders(keys, leaders_of(leaders@), keys.len());
                let attempt = old(flush)@.attempt;
                if pairs.len() > 0 {
                    &&& final(flush)@ == old(flush)@
                    &&& routed matches Routed::Window { by_broker, depth }
                    &&& grouping::groups_of(pairs, brokers_of(by_broker@))
                    &&& depth == if longest(self@.pending, pairs, pairs.len())
                        < self@.max_in_flight {
                        longest(self@.pending, pairs, pairs.len())
                    } else {
                        self@.max_in_flight as nat
                    }
                } else if attempt + 1 < retry::MAX_RETRIES {
                    &&& final(flush)@ == (Progress {
                        attempt: (attempt + 1) as usize,
                        ..old(flush)@
                    })
                    &&& routed matches Routed::Wait { wait_ms }
                    &&& wait_ms == retry::backoff_of(attempt as nat)
                } else {
                    &&& final(flush)@ == old(flush)@
                    &&& routed matches Routed::Failed(e)
                    &&& e@ == Fault::NoLeader(keys[0].0, keys[0].1)
                }
            }),
    {
        let keys = self.pending_keys();
        let ghost all = slots::keys_of(self@.pending.dom());
        let ghost seen = leaders_of(leaders@);
        proof {
            assert(all.len() == keys@.len());
            if keys@.len() == 0 {
                assert(self@.pending =~= Map::empty()) by {
                    assert forall|slot: (Seq<char>, i32)| !self@.pending.dom().contains(slot) by {
                        assert(!all.contains(slot));
                    }
                }
            }
        }
        let ghost given = leaders@;
        let mut pairs: Vec<(String, TopicPartition)> = Vec::new();
        let mut depth: usize = 0;
        let total: usize = keys.len();
        let mut i: usize = 0;
        assert(paired(pairs@) =~= Seq::empty());
        for leader in it: leaders
            invariant
                self.well_formed(),
                it.seq() == given,
                seen == leaders_of(given),
                given.len() == total,
                total == keys@.len(),
                i == it.index(),
                all == group::slots_of(keys@),
                paired(pairs@) == with_leaders(all, seen, i as nat),
                depth == longest(
                    self@.pending,
                    with_leaders(all, seen, i as nat),
                    with_leaders(all, seen, i as nat).len(),
                ),
        {
            assert(seen[i as int] == client::optional_text(leader));
            let ghost earlier = pairs@;
            if let Some(addr) = leader {
                let key = keys[i].clone();
                let len: usize = self.queue_len(key.topic.as_str(), key.partition);
                proof {
                    lemma_longest_prefix(
                        self@.pending,
                        with_leaders(all, seen, i as nat),
                        with_leaders(all, seen, (i + 1) as nat),
                        with_leaders(all, seen, i as nat).len(),
                    );
                }
                if len > depth {
                    depth = len;
                }
                pairs.push((addr, key));
                assert(paired(pairs@) =~= paired(earlier).push((addr@, all[i as int])));
            }
            i = i + 1;
        }
        if pairs.len() == 0 {
            let attempt: usize = flush.attempt;
            if attempt == retry::MAX_RETRIES - 1 {
                return Routed::Failed(
                    Error::NoLeader { topic: keys[0].topic.clone(), partition: keys[0].partition },
                );
            }
            flush.attempt = attempt + 1;
            return Routed::Wait { wait_ms: retry::backoff_ms(attempt) };
        }
        if depth > self.max_in_flight {
            depth = self.max_in_flight;
        }
        let ghost entries = grouping::entry_views(pairs@);
        let by_broker = grouping::grouped(pairs);
        proof {
            let f = |tp: TopicPartition| tp@;
            let groups = grouping::group_views(by_broker@);
            let mapped = with_leaders(all, seen, all.len());
            let mapped_groups = brokers_of(by_broker@);
            assert forall|k: int| 0 <= k < entries.len() implies #[trigger] mapped[k] == (
                entries[k].0,
                f(entries[k].1),
            ) by {
                assert(paired(pairs@)[k] == mapped[k]);
            }
            assert forall|g: int| 0 <= g < groups.len() implies #[trigger] mapped_groups[g] == (
                groups[g].0,
                groups[g].1.map_values(f),
            ) by {
                assert(group::slots_of(by_broker@[g].1@) =~= by_broker@[g].1@.map_values(f));
            }
            grouping::lemma_groups_mapped(entries, groups, mapped, mapped_groups, f);
        }
        Routed::Window { by_broker, depth }
    }

    /// What each broker is sent in a round of the window, in order. Rounds go out in
    /// order on each connection, which is what puts a partition's batches on the wire
    /// in sequence.
    pub fn round(&self, by_broker: &Vec<(String, Vec<TopicPartition>)>, round: usize) -> (targets:
        Vec<(String, Vec<TopicPartition>)>)
        requires
            self.well_formed(),
        ensures
            brokers_of(targets@) == round_of(
                self@.pending,
                brokers_of(by_broker@),
                round as nat,
                by_broker@.len(),
            ),
    {
        let ghost brokers = brokers_of(by_broker@);
        let mut targets: Vec<(String, Vec<TopicPartition>)> = Vec::new();
        assert(brokers_of(targets@) =~= Seq::empty());
        let mut b: usize = 0;
        while b < by_broker.len()
            invariant
                self.well_formed(),
                b <= by_broker@.len(),
                brokers == brokers_of(by_broker@),
                brokers_of(targets@) == round_of(
                    self@.pending,
                    brokers,
                    round as nat,
                    b as nat,
                ),
            decreases by_broker@.len() - b,
        {
            let keys = &by_broker[b].1;
            let ghost all = group::slots_of(keys@);
            assert(brokers[b as int] == (by_broker@[b as int].0@, all));
            let mut these: Vec<TopicPartition> = Vec::new();
            assert(group::slots_of(these@) =~= Seq::empty());
            let mut k: usize = 0;
            while k < keys.len()
                invariant
                    self.well_formed(),
                    k <= keys@.len(),
                    all == group::slots_of(keys@),
                    group::slots_of(these@) == taking(self@.pending, all, round as nat, k as nat),
                decreases keys@.len() - k,
            {
                let ghost earlier = these@;
                assert(all[k as int] == keys@[k as int]@);
                if self.queue_len(keys[k].topic.as_str(), keys[k].partition) > round {
                    these.push(keys[k].clone());
                    assert(group::slots_of(these@) =~= group::slots_of(earlier).push(
                        all[k as int],
                    ));
                }
                k = k + 1;
            }
            let ghost sent = targets@;
            let ghost list = group::slots_of(these@);
            if these.len() > 0 {
                targets.push((by_broker[b].0.clone(), these));
                assert(brokers_of(targets@) =~= brokers_of(sent).push(
                    (brokers[b as int].0, list),
                ));
            }
            b = b + 1;
        }
        targets
    }

    /// One request that carries every partition given, each with the batch that it has
    /// for this round.
    pub fn produce_request(&self, keys: &Vec<TopicPartition>, round: usize) -> (request:
        ProduceRequest)
        requires
            self.well_formed(),
        ensures
            client::optional_text(request.transactional_id) == self@.transactional_id,
            request.acks == self@.acks,
            request.timeout_ms == self@.timeout_ms,
            grouping::groups_of(
                request_entries(
                    self@.pending,
                    group::slots_of(keys@),
                    round as nat,
                    keys@.len(),
                ),
                topic_data(request.topics@),
            ),
    {
        let ghost all = group::slots_of(keys@);
        let mut entries: Vec<(String, PartitionData)> = Vec::new();
        let mut k: usize = 0;
        assert(data_of(entries@) =~= Seq::empty());
        while k < keys.len()
            invariant
                self.well_formed(),
                k <= keys@.len(),
                all == group::slots_of(keys@),
                data_of(entries@) == request_entries(
                    self@.pending,
                    all,
                    round as nat,
                    k as nat,
                ),
            decreases keys@.len() - k,
        {
            let ghost earlier = entries@;
            assert(all[k as int] == keys@[k as int]@);
            if let Some(queue) = self.pending.get(keys[k].topic.as_str(), keys[k].partition) {
                assert(queue@ == window::queue_of(self@.pending, all[k as int]));
                if queue.len() > round {
                    let records = queue[round].clone();
                    entries.push(
                        (
                            keys[k].topic.clone(),
                            PartitionData { index: keys[k].partition, records },
                        ),
                    );
                    assert(data_of(entries@) =~= data_of(earlier).push(
                        (all[k as int].0, (all[k as int].1, buffer::contents(records))),
                    ));
                }
            }
            k = k + 1;
        }
        let ghost views = grouping::entry_views(entries@);
        let ghost mapped = data_of(entries@);
        let topics = grouping::grouped(entries);
        proof {
            let f = |d: PartitionData| (d.index, buffer::contents(d.records));
            grouping::lemma_groups_mapped(
                views,
                grouping::group_views(topics@),
                mapped,
                topic_data(topics@),
                f,
            );
        }
        ProduceRequest {
            transactional_id: match &self.transactional_id {
                Some(id) => Some(id.clone()),
                None => None,
            },
            acks: self.acks,
            timeout_ms: self.timeout_ms,
            topics,
        }
    }
}

spec fn paired(pairs: Seq<(String, TopicPartition)>) -> Seq<(Seq<char>, (Seq<char>, i32))> {
    Seq::new(pairs.len(), |i: int| (pairs[i].0@, pairs[i].1@))
}

spec fn data_of(entries: Seq<(String, PartitionData)>) -> Seq<(Seq<char>, (i32, Seq<u8>))> {
    Seq::new(
        entries.len(),
        |i: int|
            (entries[i].0@, (entries[i].1.index, buffer::contents(entries[i].1.records))),
    )
}

proof fn lemma_longest_prefix(
    pending: Map<(Seq<char>, i32), Seq<Bytes>>,
    a: Seq<(Seq<char>, (Seq<char>, i32))>,
    b: Seq<(Seq<char>, (Seq<char>, i32))>,
    n: nat,
)
    requires
        n <= a.len(),
        n <= b.len(),
        forall|i: int| 0 <= i < n ==> a[i] == b[i],
    ensures
        longest(pending, a, n) == longest(pending, b, n),
    decreases n,
{
    if n > 0 {
        lemma_longest_prefix(pending, a, b, (n - 1) as nat);
    }
}

/// What follows from a window's answers.
#[derive(Debug)]
pub enum Next {
    /// Nothing is queued any more.
    Done,
    /// Wait, if there is anything to wait out, and send another window.
    Again { wait_ms: u64 },
    /// Wait, and report failure.
    Failed { wait_ms: u64, error: Error },
}

/// What became of a window.
#[derive(Debug)]
pub struct AfterWindow {
    /// The partitions whose leader moved: what is known of it is to be forgotten.
    pub moved: Vec<TopicPartition>,
    /// The topics whose metadata is to be asked for again before anything else.
    pub refresh: Vec<String>,
    pub next: Next,
}

/// Whether a list has exactly the topics of these partitions, in order, each once.
pub open spec fn topic_list(topics: Seq<Seq<char>>, of: Set<(Seq<char>, i32)>) -> bool {
    &&& forall|i: int, j: int|
        0 <= i < j < topics.len() ==> names::before(#[trigger] topics[i], #[trigger] topics[j])
    &&& forall|slot: (Seq<char>, i32)| #[trigger] of.contains(slot) ==> topics.contains(slot.0)
    &&& forall|i: int|
        0 <= i < topics.len() ==> exists|slot: (Seq<char>, i32)| #[trigger]
            of.contains(slot) && slot.0 == #[trigger] topics[i]
}

/// Whether a topic is that of one of the first `n` partitions.
spec fn topic_seen(all: Seq<(Seq<char>, i32)>, n: int, topic: Seq<char>) -> bool {
    exists|k: int| 0 <= k < n && (#[trigger] all[k]).0 == topic
}

/// The topics of partitions that are in order.
fn topics_among(keys: &Vec<TopicPartition>) -> (topics: Vec<String>)
    requires
        forall|i: int, j: int|
            0 <= i < j < keys@.len() ==> slots::slot_before(
                #[trigger] group::slots_of(keys@)[i],
                #[trigger] group::slots_of(keys@)[j],
            ),
    ensures
        forall|of: Set<(Seq<char>, i32)>|
            slots::key_list(group::slots_of(keys@), of) ==> #[trigger] topic_list(
                names::names_of(topics@),
                of,
            ),
{
    let ghost all = group::slots_of(keys@);
    let mut topics: Vec<String> = Vec::new();
    let mut i: usize = 0;
    while i < keys.len()
        invariant
            i <= keys@.len(),
            all == group::slots_of(keys@),
            forall|a: int, b: int|
                0 <= a < b < keys@.len() ==> slots::slot_before(#[trigger] all[a], #[trigger] all[b]),
            topics_so_far(all, i as int, names::names_of(topics@)),
        decreases keys@.len() - i,
    {
        let topic = keys[i].topic.as_str();
        let ghost here = all[i as int];
        assert(here == keys@[i as int]@);
        let ghost before = names::names_of(topics@);
        let known = i > 0 && names::same(keys[i - 1].topic.as_str(), topic);
        assert(i > 0 ==> all[i - 1] == keys@[i - 1]@ && slots::slot_before(all[i - 1], here));
        if !known {
            topics.push(topic.to_owned());
            assert(names::names_of(topics@) =~= before.push(here.0));
            proof {
                lemma_topic_joins(all, i as int, before);
            }
        } else {
            proof {
                lemma_topic_known(all, i as int, before);
            }
        }
        i = i + 1;
    }
    proof {
        let list = names::names_of(topics@);
        assert forall|of: Set<(Seq<char>, i32)>| slots::key_list(all, of) implies #[trigger] topic_list(
            list,
            of,
        ) by {
            lemma_topics_complete(all, list, of);
        }
    }
    topics
}

spec fn topics_so_far(all: Seq<(Seq<char>, i32)>, i: int, list: Seq<Seq<char>>) -> bool {
    &&& forall|a: int, b: int|
        0 <= a < b < list.len() ==> names::before(#[trigger] list[a], #[trigger] list[b])
    &&& i > 0 ==> list.len() > 0 && list.last() == all[i - 1].0
    &&& i == 0 ==> list.len() == 0
    &&& forall|k: int| 0 <= k < i ==> list.contains((#[trigger] all[k]).0)
    &&& forall|t: int| 0 <= t < list.len() ==> topic_seen(all, i, #[trigger] list[t])
}

proof fn lemma_topic_known(all: Seq<(Seq<char>, i32)>, i: int, list: Seq<Seq<char>>)
    requires
        0 < i < all.len(),
        topics_so_far(all, i, list),
        all[i - 1].0 == all[i].0,
    ensures
        topics_so_far(all, i + 1, list),
{
    assert(list[list.len() - 1] == all[i].0);
    assert forall|t: int| 0 <= t < list.len() implies topic_seen(all, i + 1, #[trigger] list[t]) by {
        assert(topic_seen(all, i, list[t]));
        let k = choose|k: int| 0 <= k < i && (#[trigger] all[k]).0 == list[t];
        assert(all[k].0 == list[t]);
    }
}

proof fn lemma_topic_joins(all: Seq<(Seq<char>, i32)>, i: int, list: Seq<Seq<char>>)
    requires
        0 <= i < all.len(),
        topics_so_far(all, i, list),
        i > 0 ==> slots::slot_before(all[i - 1], all[i]) && all[i - 1].0 != all[i].0,
    ensures
        topics_so_far(all, i + 1, list.push(all[i].0)),
{
    let now = list.push(all[i].0);
    assert forall|a: int, b: int| 0 <= a < b < now.len() implies names::before(
        #[trigger] now[a],
        #[trigger] now[b],
    ) by {
        if b == list.len() && a < b - 1 {
            names::law_order_is_transitive(list[a], list[list.len() - 1], all[i].0);
        }
    }
    assert forall|k: int| 0 <= k < i + 1 implies now.contains((#[trigger] all[k]).0) by {
        if k < i {
            assert(list.contains(all[k].0));
            let t = choose|t: int| 0 <= t < list.len() && list[t] == all[k].0;
            assert(now[t] == all[k].0);
        } else {
            assert(now[list.len() as int] == all[k].0);
        }
    }
    assert forall|t: int| 0 <= t < now.len() implies topic_seen(all, i + 1, #[trigger] now[t]) by {
        if t < list.len() {
            assert(topic_seen(all, i, list[t]));
            let k = choose|k: int| 0 <= k < i && (#[trigger] all[k]).0 == list[t];
            assert(all[k].0 == now[t]);
        } else {
            assert(all[i].0 == now[t]);
        }
    }
}

proof fn lemma_topics_complete(
    all: Seq<(Seq<char>, i32)>,
    list: Seq<Seq<char>>,
    of: Set<(Seq<char>, i32)>,
)
    requires
        topics_so_far(all, all.len() as int, list),
        slots::key_list(all, of),
    ensures
        topic_list(list, of),
{
    assert forall|slot: (Seq<char>, i32)| #[trigger] of.contains(slot) implies list.contains(
        slot.0,
    ) by {
        assert(all.contains(slot));
        let k = choose|k: int| 0 <= k < all.len() && all[k] == slot;
        assert(list.contains(all[k].0));
    }
    assert forall|t: int| 0 <= t < list.len() implies exists|slot: (Seq<char>, i32)| #[trigger]
        of.contains(slot) && slot.0 == #[trigger] list[t] by {
        assert(topic_seen(all, all.len() as int, list[t]));
        let k = choose|k: int| 0 <= k < all.len() && (#[trigger] all[k]).0 == list[t];
        assert(all.contains(all[k]));
        assert(of.contains(all[k]));
    }
}

/// Whether a window went well: no answer is a failure, and something left a queue.
pub open spec fn went_well(
    pending: Map<(Seq<char>, i32), Seq<Bytes>>,
    replies: Seq<window::Reply>,
) -> bool {
    window::all_accepted(replies) && window::writes(pending, replies, replies.len()).len() > 0
}

impl Producer {
    /// Takes the answers of a window: takes the leading runs of successes off their
    /// queues, and says how to go on.
    ///
    /// A window that went well costs no attempt and no wait, however much is still queued
    /// behind it. An answer that neither a retry nor a new leader can mend, with nothing
    /// failed before it, fences the producer.
    pub fn settle(&mut self, flush: &mut Flush, answers: &[Answer]) -> (after: AfterWindow)
        requires
            old(self).well_formed(),
            old(flush)@.attempt < retry::MAX_RETRIES,
        ensures
            final(self).well_formed(),
            ({
                let replies = window::replies_of(answers@);
                let before = old(self)@;
                let progress = old(flush)@;
                let left = window::occupied(
                    window::after(before.pending, replies, replies.len()),
                );
                let lost = group::slots_of(after.moved@);
                match window::end_of_stream(replies, replies.len()) {
                    Some(i) => {
                        &&& final(self)@ == (Outbox {
                            sequencing: before.sequencing.fenced(),
                            ..before
                        })
                        &&& final(flush)@ == progress
                        &&& lost == window::moved(replies, i as nat)
                        &&& after.refresh@.len() == 0
                        &&& after.next matches Next::Failed { wait_ms, error }
                        &&& wait_ms == 0
                        &&& error@ == Fault::Broker(
                            "Produce"@,
                            replies[i].code,
                            replies[i].disposition,
                        )
                    },
                    None => {
                        let moving = window::moved(replies, replies.len());
                        let written = progress.written + window::writes(
                            before.pending,
                            replies,
                            replies.len(),
                        );
                        let done = left == Map::<(Seq<char>, i32), Seq<Bytes>>::empty();
                        let clean = went_well(before.pending, replies);
                        &&& final(self)@ == (Outbox { pending: left, ..before })
                        &&& lost == moving
                        &&& final(flush)@.written == written
                        &&& final(flush)@.attempt == if done || clean {
                            progress.attempt as int
                        } else {
                            progress.attempt + 1
                        }
                        &&& if !done && moving.len() > 0 {
                            topic_list(names::names_of(after.refresh@), left.dom())
                        } else {
                            after.refresh@.len() == 0
                        }
                        &&& if done {
                            after.next is Done
                        } else if clean {
                            after.next matches Next::Again { wait_ms } && wait_ms == 0
                        } else if progress.attempt + 1 < retry::MAX_RETRIES {
                            after.next matches Next::Again { wait_ms } && wait_ms
                                == retry::backoff_of(progress.attempt as nat)
                        } else {
                            let first = slots::keys_of(left.dom())[0];
                            after.next matches Next::Failed { wait_ms, error } && wait_ms
                                == retry::backoff_of(progress.attempt as nat) && error@
                                == Fault::NoLeader(first.0, first.1)
                        }
                    },
                }
            }),
    {
        let ghost before = self@;
        let ghost progress = flush@;
        let ghost replies = window::replies_of(answers@);
        let (settled, end) = window::settle(&mut self.pending, answers);
        if let Some(i) = end {
            assert(replies[i as int] == answers@[i as int]@);
            self.state.fence();
            return AfterWindow {
                moved: settled.moved,
                refresh: Vec::new(),
                next: Next::Failed {
                    wait_ms: 0,
                    error: Error::Broker {
                        op: "Produce",
                        code: answers[i].code,
                        disposition: answers[i].disposition,
                    },
                },
            };
        }
        let mut new = settled.written;
        let clean = new.len() > 0 && window::accepted(answers);
        proof {
            assert(window::writes_of(flush.written@ + new@) =~= window::writes_of(flush.written@)
                + window::writes_of(new@));
        }
        flush.written.append(&mut new);
        proof {
            let left = window::occupied(window::after(before.pending, replies, replies.len()));
            assert(window::queues_of(self.pending@) == left);
            assert forall|slot: (Seq<char>, i32)| #[trigger]
                self.pending@.dom().contains(slot) implies self.pending@[slot]@.len() > 0 by {
                assert(window::queues_of(self.pending@).dom().contains(slot));
                assert(left[slot].len() > 0);
            }
        }
        if self.is_idle() {
            return AfterWindow { moved: settled.moved, refresh: Vec::new(), next: Next::Done };
        }
        let keys = self.pending_keys();
        proof {
            let all = group::slots_of(keys@);
            if keys@.len() == 0 {
                assert(self@.pending =~= Map::empty()) by {
                    assert forall|slot: (Seq<char>, i32)| !self@.pending.dom().contains(slot) by {
                        assert(!all.contains(slot));
                    }
                }
            }
        }
        let refresh: Vec<String> = if settled.moved.len() > 0 {
            topics_among(&keys)
        } else {
            Vec::new()
        };
        if clean {
            return AfterWindow { moved: settled.moved, refresh, next: Next::Again { wait_ms: 0 } };
        }
        let attempt: usize = flush.attempt;
        let wait_ms: u64 = retry::backoff_ms(attempt);
        flush.attempt = attempt + 1;
        let next = if attempt < retry::MAX_RETRIES - 1 {
            Next::Again { wait_ms }
        } else {
            assert(group::slots_of(keys@)[0] == keys@[0]@);
            Next::Failed {
                wait_ms,
                error: Error::NoLeader {
                    topic: keys[0].topic.clone(),
                    partition: keys[0].partition,
                },
            }
        };
        AfterWindow { moved: settled.moved, refresh, next }
    }

    /// Decides over a window whose connection failed. Nothing of it leaves a queue: the
    /// batches carry their sequences, so what the broker did write is deduplicated when
    /// it is sent again. A connection that was closed is worth another try; a broker
    /// that takes requests and never answers is not. `None` says to report the failure.
    pub fn on_connection_lost(&self, flush: &mut Flush, closed: bool) -> (wait_ms: Option<u64>)
        requires
            old(flush)@.attempt < retry::MAX_RETRIES,
        ensures
            if closed && old(flush)@.attempt + 1 < retry::MAX_RETRIES {
                &&& wait_ms == Some(retry::backoff_of(old(flush)@.attempt as nat) as u64)
                &&& final(flush)@ == (Progress {
                    attempt: (old(flush)@.attempt + 1) as usize,
                    ..old(flush)@
                })
            } else {
                wait_ms is None && final(flush)@ == old(flush)@
            },
    {
        let attempt: usize = flush.attempt;
        if closed && attempt < retry::MAX_RETRIES - 1 {
            flush.attempt = attempt + 1;
            Some(retry::backoff_ms(attempt))
        } else {
            None
        }
    }
}

/// The offset of the last of the first `n` batches that went to a partition, -1 if none
/// did.
pub open spec fn last_offset(
    written: Seq<(Seq<char>, i32, i64)>,
    slot: (Seq<char>, i32),
    n: nat,
) -> i64
    decreases n,
{
    if n == 0 {
        -1i64
    } else if (written[n - 1].0, written[n - 1].1) == slot {
        written[n - 1].2
    } else {
        last_offset(written, slot, (n - 1) as nat)
    }
}

/// Where the batch that was just sent to a partition begins: the last of what was written
/// to it, -1 if nothing was.
pub fn first_offset(written: &Vec<(String, i32, i64)>, topic: &str, partition: i32) -> (offset: i64)
    ensures
        offset == last_offset(window::writes_of(written@), (topic@, partition), written@.len()),
{
    let ghost all = window::writes_of(written@);
    let mut n: usize = written.len();
    while n > 0
        invariant
            n <= written@.len(),
            all == window::writes_of(written@),
            last_offset(all, (topic@, partition), written@.len()) == last_offset(
                all,
                (topic@, partition),
                n as nat,
            ),
        decreases n,
    {
        let entry = &written[n - 1];
        assert(all[n - 1] == (entry.0@, entry.1, entry.2));
        if entry.1 == partition && names::same(entry.0.as_str(), topic) {
            return entry.2;
        }
        n = n - 1;
    }
    -1
}

/// A request to add a group's offsets to a transaction, for the *transaction*
/// coordinator.
#[derive(Debug)]
pub struct AddOffsetsToTxn {
    pub transactional_id: String,
    pub producer_id: i64,
    pub producer_epoch: i16,
    pub group_id: String,
}

/// A request to commit a group's offsets with a transaction, for the *group*
/// coordinator.
#[derive(Debug)]
pub struct TxnOffsetCommit {
    pub transactional_id: String,
    pub producer_id: i64,
    pub producer_epoch: i16,
    pub group_id: String,
    pub generation_id: i32,
    pub member_id: String,
    pub group_instance_id: Option<String>,
    /// By topic.
    pub topics: Vec<(String, Vec<OffsetEntry>)>,
}

impl Producer {
    /// The two requests that commit a group's offsets **as part of this transaction**,
    /// in order; `None` where there are no offsets.
    ///
    /// They go to two coordinators, which are not interchangeable. Without the first,
    /// the offsets would be written outside the transaction and hold even if it is
    /// aborted; the second carries the member's fencing token, so a member that has been
    /// replaced cannot commit.
    pub fn send_offsets_to_transaction(
        &self,
        offsets: &SlotMap<i64>,
        metadata: &GroupMetadata,
    ) -> (requests: Result<Option<(AddOffsetsToTxn, TxnOffsetCommit)>, Error>)
        requires
            self.well_formed(),
            offsets.well_formed(),
        ensures
            if self@.sequencing.txn != TxnState::InTransaction {
                requests is Err && requests->Err_0@ == Fault::Producer(
                    producer::Misuse::NoTransaction,
                )
            } else if offsets@ == Map::<(Seq<char>, i32), i64>::empty() {
                requests matches Ok(None)
            } else if self@.sequencing.identity is None {
                requests is Err && requests->Err_0@ == Fault::Missing("producer id"@)
            } else if self@.transactional_id is None {
                requests is Err && requests->Err_0@ == Fault::Missing("transactional id"@)
            } else {
                &&& requests matches Ok(Some((add, commit)))
                &&& Some(add.transactional_id@) == self@.transactional_id
                &&& Some(
                    ProducerIdentity { id: add.producer_id, epoch: add.producer_epoch },
                ) == self@.sequencing.identity
                &&& add.group_id@ == metadata@.group_id
                &&& Some(commit.transactional_id@) == self@.transactional_id
                &&& Some(
                    ProducerIdentity { id: commit.producer_id, epoch: commit.producer_epoch },
                ) == self@.sequencing.identity
                &&& commit.group_id@ == metadata@.group_id
                &&& commit.generation_id == metadata@.generation_id
                &&& commit.member_id@ == metadata@.member_id
                &&& client::optional_text(commit.group_instance_id) == metadata@.group_instance_id
                &&& membership::commits(offsets@, commit.topics@)
            },
    {
        if self.state.state() != TxnState::InTransaction {
            return Err(Error::Producer(ProducerError::NoTransaction));
        }
        if offsets.is_empty() {
            return Ok(None);
        }
        let identity = match self.state.identity() {
            Some(identity) => identity,
            None => {
                return Err(Error::Missing("producer id"));
            },
        };
        let id = match &self.transactional_id {
            Some(id) => id,
            None => {
                return Err(Error::Missing("transactional id"));
            },
        };
        let add = AddOffsetsToTxn {
            transactional_id: id.clone(),
            producer_id: identity.id,
            producer_epoch: identity.epoch,
            group_id: metadata.group_id().to_owned(),
        };
        let commit = TxnOffsetCommit {
            transactional_id: id.clone(),
            producer_id: identity.id,
            producer_epoch: identity.epoch,
            group_id: metadata.group_id().to_owned(),
            generation_id: metadata.generation_id(),
            member_id: metadata.member_id().to_owned(),
            group_instance_id: metadata.group_instance_id(),
            topics: membership::offsets_by_topic(offsets),
        };
        Ok(Some((add, commit)))
    }
}

/// What to do about a topic's partition count.
#[derive(Debug)]
pub enum CountStep {
    /// It is known.
    Known(i32),
    /// The topic is still being created: wait, and ask again.
    Wait { wait_ms: u64 },
    /// It never came to be.
    Failed(Error),
}

/// Decides over the answer to a question for a topic's partition count, `None` where the
/// topic has no leader. The count decides where every key lands, so placing records
/// against a count of zero is no smaller failure than the wait.
pub fn on_partition_count(topic: &str, attempt: usize, count: Option<i32>) -> (step: CountStep)
    ensures
        match step {
            CountStep::Known(n) => count == Some(n) && n > 0,
            CountStep::Wait { wait_ms } => !(count is Some && count->Some_0 > 0) && attempt + 1
                < retry::MAX_RETRIES && wait_ms == retry::backoff_of(attempt as nat),
            CountStep::Failed(e) => !(count is Some && count->Some_0 > 0) && attempt + 1
                >= retry::MAX_RETRIES && e@ == Fault::NoLeader(topic@, -1i32),
        },
{
    match count {
        Some(n) if n > 0 => CountStep::Known(n),
        _ => if attempt < retry::MAX_RETRIES - 1 {
            CountStep::Wait { wait_ms: retry::backoff_ms(attempt) }
        } else {
            CountStep::Failed(Error::NoLeader { topic: topic.to_owned(), partition: -1 })
        },
    }
}

/// The round-robin counter after the first `n` records: it advances with each that has
/// no key.
pub open spec fn counter_after(list: Seq<Message>, start: u32, n: nat) -> u32
    decreases n,
{
    if n == 0 {
        start
    } else {
        let earlier = counter_after(list, start, (n - 1) as nat);
        if list[n - 1].key is None {
            earlier.wrapping_add(1)
        } else {
            earlier
        }
    }
}

/// The partition of a record.
pub open spec fn partition_of(outbox: Outbox, list: Seq<Message>, count: i32, i: int) -> i32 {
    match list[i].key {
        Some(key) => (partitioner::key_number(outbox.partitioner, key) as int % count as int)
            as i32,
        None => (counter_after(list, outbox.round_robin, i as nat) as int % count as int) as i32,
    }
}

/// Those of the first `n` records that go to a partition, in their order.
pub open spec fn placed(
    outbox: Outbox,
    list: Seq<Message>,
    count: i32,
    partition: i32,
    n: nat,
) -> Seq<Message>
    decreases n,
{
    if n == 0 {
        Seq::empty()
    } else {
        let earlier = placed(outbox, list, count, partition, (n - 1) as nat);
        if partition_of(outbox, list, count, n - 1) == partition {
            earlier.push(list[n - 1])
        } else {
            earlier
        }
    }
}

/// Whether batches are the first `n` records by partition: partitions ascend, each once,
/// and each has its records in their order.
pub open spec fn places(
    batches: Map<(Seq<char>, i32), Vec<ProducerRecord>>,
    outbox: Outbox,
    topic: Seq<char>,
    list: Seq<Message>,
    count: i32,
    n: nat,
) -> bool {
    forall|slot: (Seq<char>, i32)| #![trigger batches.dom().contains(slot)]
        {
            let here = placed(outbox, list, count, slot.1, n);
            &&& batches.dom().contains(slot) <==> slot.0 == topic && here.len() > 0
            &&& batches.dom().contains(slot) ==> messages(batches[slot]@) == here
        }
}

impl Producer {
    /// The partition that a key would go to in a topic with this many partitions,
    /// without sending anything.
    pub fn partition_for(&self, topic: &str, key: Option<&[u8]>, count: i32) -> (partition: Result<
        i32,
        Error,
    >)
        ensures
            if count <= 0 {
                partition is Err && partition->Err_0@ == Fault::NoLeader(topic@, -1i32)
            } else {
                partition matches Ok(p) && p == match key {
                    Some(key) => (partitioner::key_number(self@.partitioner, key@) as int
                        % count as int) as i32,
                    None => (self@.round_robin as int % count as int) as i32,
                }
            },
            count > 0 && key is Some && self@.partitioner == Partitioner::Crc32 ==> partition == Ok::<
                i32,
                Error,
            >((partitioner::crc32_of(key.unwrap()@) as int % count as int) as i32),
            count > 0 && key is Some && self@.partitioner == Partitioner::Murmur2 ==> partition == Ok::<
                i32,
                Error,
            >(
                ((partitioner::murmur2_of(key.unwrap()@) as int % 0x8000_0000) % count as int)
                    as i32,
            ),
    {
        let mut scratch: u32 = self.round_robin;
        match self.partitioner.partition_for(key, count, &mut scratch) {
            Some(partition) => Ok(partition),
            None => Err(Error::NoLeader { topic: topic.to_owned(), partition: -1 }),
        }
    }

    /// Chooses the partition that a record goes to, in a topic with this many partitions:
    /// the one that its key would go to, or, where it has none, the next in turn.
    pub fn pick(&mut self, topic: &str, key: Option<&[u8]>, count: i32) -> (partition: Result<
        i32,
        Error,
    >)
        requires
            old(self).well_formed(),
        ensures
            final(self).well_formed(),
            if count <= 0 {
                &&& partition is Err
                &&& partition->Err_0@ == Fault::NoLeader(topic@, -1i32)
                &&& final(self)@ == old(self)@
            } else {
                match key {
                    Some(key) => {
                        &&& partition matches Ok(p)
                        &&& p == (partitioner::key_number(old(self)@.partitioner, key@) as int
                            % count as int) as i32
                        &&& final(self)@ == old(self)@
                    },
                    None => {
                        &&& partition matches Ok(p)
                        &&& p == (old(self)@.round_robin as int % count as int) as i32
                        &&& final(self)@ == (Outbox {
                            round_robin: old(self)@.round_robin.wrapping_add(1),
                            ..old(self)@
                        })
                    },
                }
            },
            count > 0 && key is Some && old(self)@.partitioner == Partitioner::Crc32 ==> partition == Ok::<
                i32,
                Error,
            >((partitioner::crc32_of(key.unwrap()@) as int % count as int) as i32),
            count > 0 && key is Some && old(self)@.partitioner == Partitioner::Murmur2 ==> partition == Ok::<
                i32,
                Error,
            >(
                ((partitioner::murmur2_of(key.unwrap()@) as int % 0x8000_0000) % count as int)
                    as i32,
            ),
    {
        match self.partitioner.partition_for(key, count, &mut self.round_robin) {
            Some(partition) => Ok(partition),
            None => Err(Error::NoLeader { topic: topic.to_owned(), partition: -1 }),
        }
    }

    /// Puts records into one batch per partition, by their keys. One batch per partition
    /// is what makes this cheaper than a send per record.
    pub fn place(&mut self, topic: &str, records: &[ProducerRecord], count: i32) -> (batches: Result<
        Vec<(TopicPartition, Vec<ProducerRecord>)>,
        Error,
    >)
        requires
            old(self).well_formed(),
        ensures
            final(self).well_formed(),
            ({
                let list = messages(records@);
                if list.len() > 0 && count <= 0 {
                    &&& batches is Err
                    &&& batches->Err_0@ == Fault::NoLeader(topic@, -1i32)
                    &&& final(self)@ == old(self)@
                } else {
                    &&& batches matches Ok(b)
                    &&& slots::ascending_keys(b@)
                    &&& slots::distinct_keys(b@)
                    &&& places(slots::as_map(b@), old(self)@, topic@, list, count, list.len())
                    &&& final(self)@ == (Outbox {
                        round_robin: counter_after(list, old(self)@.round_robin, list.len()),
                        ..old(self)@
                    })
                }
            }),
    {
        let ghost list = messages(records@);
        let ghost before = self@;
        let mut batches: SlotMap<Vec<ProducerRecord>> = SlotMap::new();
        let mut i: usize = 0;
        while i < records.len()
            invariant
                self.well_formed(),
                i <= records@.len(),
                before == old(self)@,
                list == messages(records@),
                i > 0 ==> count > 0,
                batches.well_formed(),
                places(batches@, before, topic@, list, count, i as nat),
                self@ == (Outbox {
                    round_robin: counter_after(list, before.round_robin, i as nat),
                    ..before
                }),
            decreases records@.len() - i,
        {
            let record = &records[i];
            assert(list[i as int] == record@);
            let key: Option<&[u8]> = match &record.key {
                Some(k) => Some(buffer::as_slice(k)),
                None => None,
            };
            let partition: i32 = match self.partitioner.partition_for(
                key,
                count,
                &mut self.round_robin,
            ) {
                Some(partition) => partition,
                None => {
                    return Err(Error::NoLeader { topic: topic.to_owned(), partition: -1 });
                },
            };
            assert(partition == partition_of(before, list, count, i as int));
            let ghost held = batches@;
            let ghost slot = (topic@, partition);
            let mut batch: Vec<ProducerRecord> = match batches.remove(topic, partition) {
                Some(batch) => batch,
                None => Vec::new(),
            };
            let ghost earlier = batch@;
            assert(held.dom().contains(slot) || placed(
                before,
                list,
                count,
                partition,
                i as nat,
            ) =~= messages(earlier));
            batch.push(record.clone());
            assert(messages(batch@) =~= messages(earlier).push(record@));
            batches.insert(topic, partition, batch);
            proof {
                assert forall|other: (Seq<char>, i32)|
                    #![trigger batches@.dom().contains(other)] {
                    let here = placed(before, list, count, other.1, (i + 1) as nat);
                    &&& batches@.dom().contains(other) <==> other.0 == topic@ && here.len() > 0
                    &&& batches@.dom().contains(other) ==> messages(batches@[other]@) == here
                } by {
                    assert(held.dom().contains(other) <==> other.0 == topic@ && placed(
                        before,
                        list,
                        count,
                        other.1,
                        i as nat,
                    ).len() > 0);
                }
            }
            i = i + 1;
        }
        Ok(batches.into_entries())
    }
}

/// Where the batches that were just sent to some partitions of a topic begin, partition by
/// partition.
pub fn offsets_by_partition(
    written: &Vec<(String, i32, i64)>,
    topic: &str,
    partitions: &[i32],
) -> (offsets: Vec<(i32, i64)>)
    ensures
        offsets@ == Seq::new(
            partitions@.len(),
            |i: int|
                (
                    partitions@[i],
                    last_offset(
                        window::writes_of(written@),
                        (topic@, partitions@[i]),
                        written@.len(),
                    ),
                ),
        ),
{
    let ghost goal = Seq::new(
        partitions@.len(),
        |i: int|
            (
                partitions@[i],
                last_offset(
                    window::writes_of(written@),
                    (topic@, partitions@[i]),
                    written@.len(),
                ),
            ),
    );
    let mut offsets: Vec<(i32, i64)> = Vec::new();
    let mut i: usize = 0;
    while i < partitions.len()
        invariant
            i <= partitions@.len(),
            offsets@.len() == i,
            goal.len() == partitions@.len(),
            forall|k: int|
                0 <= k < goal.len() ==> #[trigger] goal[k] == (
                    partitions@[k],
                    last_offset(
                        window::writes_of(written@),
                        (topic@, partitions@[k]),
                        written@.len(),
                    ),
                ),
            forall|k: int| 0 <= k < i ==> #[trigger] offsets@[k] == goal[k],
        decreases partitions@.len() - i,
    {
        offsets.push((partitions[i], first_offset(written, topic, partitions[i])));
        assert(offsets@[i as int] == goal[i as int]);
        i = i + 1;
    }
    assert(offsets@ =~= goal);
    offsets
}

proof fn lemma_batches_without(
    before: Map<(Seq<char>, i32), Seq<Bytes>>,
    after: Map<(Seq<char>, i32), Seq<Bytes>>,
    keys: Seq<(Seq<char>, i32)>,
    n: nat,
)
    requires
        n <= keys.len(),
        forall|i: int| 0 <= i < n ==> before[#[trigger] keys[i]] == after[keys[i]],
    ensures
        batches_in(before, keys, n) == batches_in(after, keys, n),
    decreases n,
{
    if n > 0 {
        lemma_batches_without(before, after, keys, (n - 1) as nat);
    }
}

proof fn lemma_batches_remove(
    pending: Map<(Seq<char>, i32), Seq<Bytes>>,
    keys: Seq<(Seq<char>, i32)>,
    at: int,
    n: nat,
)
    requires
        0 <= at < n <= keys.len(),
    ensures
        batches_in(pending, keys, n) == batches_in(pending, keys.remove(at), (n - 1) as nat)
            + pending[keys[at]].len(),
    decreases n,
{
    let less = keys.remove(at);
    if n - 1 > at {
        lemma_batches_remove(pending, keys, at, (n - 1) as nat);
        assert(less[n - 2] == keys[n - 1]);
    } else {
        lemma_batches_prefix(pending, keys, less, (n - 1) as nat);
    }
}

proof fn lemma_batches_prefix(
    pending: Map<(Seq<char>, i32), Seq<Bytes>>,
    one: Seq<(Seq<char>, i32)>,
    other: Seq<(Seq<char>, i32)>,
    n: nat,
)
    requires
        n <= one.len(),
        n <= other.len(),
        forall|i: int| 0 <= i < n ==> one[i] == other[i],
    ensures
        batches_in(pending, one, n) == batches_in(pending, other, n),
    decreases n,
{
    if n > 0 {
        lemma_batches_prefix(pending, one, other, (n - 1) as nat);
    }
}

/// Whether the keys of an outbox can be listed, as those of every [`Producer`] can.
pub open spec fn listed(outbox: Outbox) -> bool {
    let (pending, staged) = (outbox.pending.dom(), outbox.staged.dom());
    slots::key_list(slots::keys_of(pending), pending) && slots::key_list(
        slots::keys_of(staged),
        staged,
    )
}

/// What is staged for a partition becomes one batch: taking it and queueing it leaves the
/// number of queued batches as it was.
pub proof fn law_staged_records_become_one_batch(
    before: Outbox,
    after: Outbox,
    slot: (Seq<char>, i32),
    list: Seq<batch::Sealed>,
)
    requires
        listed(before),
        listed(after),
        before.staged.dom().contains(slot),
        queued_batch(Outbox { staged: before.staged.remove(slot), ..before }, after, slot, list),
    ensures
        queued_in(after) == queued_in(before),
{
    let keys = slots::keys_of(before.pending.dom());
    let now = slots::keys_of(after.pending.dom());
    let fewer = after.staged.dom();
    assert(before.staged.dom() =~= fewer.insert(slot));
    let s = slots::lemma_one_key_more(fewer, slot);
    assert(slots::keys_of(before.staged.dom()).len() == slots::keys_of(fewer).len() + 1);
    let queue = after.pending[slot];
    assert(queue.len() == window::queue_of(before.pending, slot).len() + 1);
    if before.pending.dom().contains(slot) {
        assert(after.pending.dom() =~= before.pending.dom());
        assert(keys.contains(slot));
        let at = choose|at: int| 0 <= at < keys.len() && keys[at] == slot;
        lemma_batches_remove(before.pending, keys, at, keys.len());
        lemma_batches_remove(after.pending, keys, at, keys.len());
        lemma_others_unchanged(before, after, keys, at, slot);
    } else {
        assert(after.pending.dom() =~= before.pending.dom().insert(slot));
        let at = slots::lemma_one_key_more(before.pending.dom(), slot);
        lemma_batches_remove(after.pending, now, at, now.len());
        assert forall|i: int| 0 <= i < keys.len() implies before.pending[#[trigger] keys[i]]
            == after.pending[keys[i]] by {
            assert(keys.contains(keys[i]));
        }
        lemma_batches_without(before.pending, after.pending, keys, keys.len());
    }
}

proof fn lemma_others_unchanged(
    before: Outbox,
    after: Outbox,
    keys: Seq<(Seq<char>, i32)>,
    at: int,
    slot: (Seq<char>, i32),
)
    requires
        slots::key_list(keys, before.pending.dom()),
        0 <= at < keys.len(),
        keys[at] == slot,
        after.pending == before.pending.insert(slot, after.pending[slot]),
    ensures
        batches_in(before.pending, keys.remove(at), (keys.len() - 1) as nat) == batches_in(
            after.pending,
            keys.remove(at),
            (keys.len() - 1) as nat,
        ),
{
    let less = keys.remove(at);
    assert forall|i: int| 0 <= i < less.len() implies before.pending[#[trigger] less[i]]
        == after.pending[less[i]] by {
        let a = if i < at {
            i
        } else {
            i + 1
        };
        assert(less[i] == keys[a]);
        slots::lemma_slots_ordered(keys[a], keys[at]);
        if a < at {
            assert(slots::slot_before(keys[a], keys[at]));
        } else {
            assert(slots::slot_before(keys[at], keys[a]));
        }
    }
    lemma_batches_without(before.pending, after.pending, less, less.len());
}

proof fn lemma_batches_among(
    pending: Map<(Seq<char>, i32), Seq<Bytes>>,
    keys: Seq<(Seq<char>, i32)>,
    n: nat,
)
    requires
        slots::key_list(keys, pending.dom()),
        n <= keys.len(),
    ensures
        batches_in(pending, keys, n) == window::queued_among(pending, keys, n),
    decreases n,
{
    if n > 0 {
        lemma_batches_among(pending, keys, (n - 1) as nat);
        assert(keys.contains(keys[n - 1]));
    }
}

/// A flush that ends with nothing queued hands out one entry for each batch that was
/// queued when it began, as many as there were.
pub proof fn law_a_flush_hands_out_one_entry_per_batch(
    before: Outbox,
    windows: Seq<Seq<window::Reply>>,
    told: Seq<(Seq<char>, i32, i64)>,
)
    requires
        listed(before),
        before.staged == Map::<(Seq<char>, i32), Accumulating>::empty(),
        window::flushed(before.pending, windows, windows.len()).0 == Map::<
            (Seq<char>, i32),
            Seq<Bytes>,
        >::empty(),
        told.to_multiset() == window::flushed(
            before.pending,
            windows,
            windows.len(),
        ).1.to_multiset(),
    ensures
        told.len() == queued_in(before),
        forall|slot: (Seq<char>, i32)| #[trigger]
            window::written_to(told, slot) == window::queue_of(before.pending, slot).len(),
{
    let keys = slots::keys_of(before.pending.dom());
    window::law_a_flush_writes_every_batch_once(before.pending, windows, told);
    lemma_batches_among(before.pending, keys, keys.len());
    let none = slots::keys_of(before.staged.dom());
    if none.len() > 0 {
        assert(none.contains(none[0]));
    }
}

/// What leaves the queues is what was written, window by window: after a window that went
/// well fewer batches are queued than before. So a flush whose windows all go well comes to
/// its end, however much is queued.
pub proof fn law_a_window_that_went_well_shortens_the_queues(
    before: Outbox,
    replies: Seq<window::Reply>,
)
    requires
        listed(before),
        went_well(before.pending, replies),
    ensures
        ({
            let left = window::occupied(window::after(before.pending, replies, replies.len()));
            let after = Outbox { pending: left, ..before };
            let written = window::writes(before.pending, replies, replies.len());
            &&& listed(after)
            &&& queued_in(after) + written.len() == queued_in(before)
            &&& queued_in(after) < queued_in(before)
        }),
{
    let left = window::occupied(window::after(before.pending, replies, replies.len()));
    let keys = slots::keys_of(before.pending.dom());
    window::law_a_window_takes_what_it_writes(before.pending, replies);
    let now = slots::keys_of(left.dom());
    lemma_batches_among(before.pending, keys, keys.len());
    lemma_batches_among(left, now, now.len());
}

/// A batch that was just queued says on its bytes what it holds. It is marked
/// transactional exactly where the producer has a transactional id, it is no control
/// batch, and it carries the producer's identity, the partition's next sequence and the
/// number of its records. Read back, its records are the ones that were given, in their
/// order, with their keys and values, each with its own timestamp or, where it had none,
/// with the time of the call.
pub proof fn law_a_queued_batch_says_what_it_holds(
    before: Outbox,
    after: Outbox,
    slot: (Seq<char>, i32),
    identity: ProducerIdentity,
    list: Seq<Message>,
    now: i64,
)
    requires
        0 < list.len(),
        before.sequencing.next(slot) + list.len() <= i32::MAX,
        before.sequencing.refuses_batch(slot) is None,
        queued_batch(
            before,
            after,
            slot,
            sealed(
                list,
                identity,
                before.transactional_id is Some,
                before.sequencing.next(slot),
                now,
            ),
        ),
    ensures
        ({
            let bytes = buffer::contents(after.pending[slot].last());
            let bulk = batch::bulk(
                sealed(
                    list,
                    identity,
                    before.transactional_id is Some,
                    before.sequencing.next(slot),
                    now,
                ),
                list.len(),
            );
            &&& after.pending[slot].drop_last() == window::queue_of(before.pending, slot)
            &&& forall|other: (Seq<char>, i32)|
                other != slot ==> #[trigger] after.pending.dom().contains(other)
                    == before.pending.dom().contains(other) && after.pending[other]
                    == before.pending[other]
            &&& after.sequencing.next(slot) == before.sequencing.next(slot) + list.len()
            &&& bytes.len() >= 61
            &&& ((bytes[22] / 16) % 2 == 1) == (before.transactional_id is Some)
            &&& (bytes[22] / 32) % 2 == 0
            &&& wire::i64_of(bytes, 43) == identity.id
            &&& wire::i16_of(bytes, 51) == identity.epoch
            &&& wire::i32_of(bytes, 53) == before.sequencing.next(slot)
            &&& wire::i32_of(bytes, 57) == list.len()
            &&& bulk <= 0x4000_0000 ==> {
                &&& records::batches_from(bytes, 0) matches Ok(Some(read))
                &&& read.len() == 1
                &&& read[0].transactional == (before.transactional_id is Some)
                &&& !read[0].control
                &&& read[0].producer_id == identity.id
                &&& read[0].records.len() == list.len()
                &&& forall|i: int|
                    0 <= i < list.len() ==> {
                        let r = #[trigger] read[0].records[i];
                        &&& r.offset == i
                        &&& records::range_of(read[0].body, r.key) == list[i].key
                        &&& records::range_of(read[0].body, r.value) == list[i].value
                        &&& list[i].timestamp is Some ==> r.timestamp
                            == list[i].timestamp.unwrap()
                        &&& list[i].timestamp is None ==> r.timestamp == now
                    }
            }
        }),
{
    let bytes = buffer::contents(after.pending[slot].last());
    let all = sealed(
        list,
        identity,
        before.transactional_id is Some,
        before.sequencing.next(slot),
        now,
    );
    if batch::bulk(all, all.len()) <= 0x4000_0000 {
        let read = records::batches_from(bytes, 0)->Ok_0.unwrap();
        assert(batch::holds(read[0], all));
        assert forall|i: int| 0 <= i < list.len() implies {
            let r = #[trigger] read[0].records[i];
            &&& r.offset == i
            &&& records::range_of(read[0].body, r.key) == list[i].key
            &&& records::range_of(read[0].body, r.value) == list[i].value
            &&& list[i].timestamp is Some ==> r.timestamp == list[i].timestamp.unwrap()
            &&& list[i].timestamp is None ==> r.timestamp == now
        } by {
            assert(all[i].key == list[i].key);
        }
    }
}

/// A new producer waits for every replica, at most half a minute, and sends each record
/// at once. It does not compress, keys land where librdkafka puts them, and at most five
/// writes are on their way at a time, as many as a broker keeps in order. It has
/// transactions exactly where it has a transactional id.
pub proof fn law_a_new_producer_is_safe(transactional_id: Option<Seq<char>>)
    ensures
        ({
            let new = unopened(transactional_id);
            &&& new.acks == -1
            &&& new.timeout_ms == 30000
            &&& new.max_in_flight == 5
            &&& new.batch_size == 16384
            &&& new.linger == 0
            &&& new.compression == CompressionCodec::Uncompressed
            &&& new.partitioner == Partitioner::Crc32
            &&& new.round_robin == 0
            &&& new.transactional_id == transactional_id
            &&& new.sequencing.transactional == (transactional_id is Some)
            &&& new.sequencing.identity is None
            &&& new.sequencing.txn == TxnState::Uninitialised
            &&& new.coordinator is None
            &&& forall|slot: (Seq<char>, i32)| new.sequencing.next(slot) == 0
            &&& forall|slot: (Seq<char>, i32)| !new.pending.dom().contains(slot)
            &&& forall|slot: (Seq<char>, i32)| !new.staged.dom().contains(slot)
        }),
{
}

/// What a transaction still has to be told of: exactly those partitions that are not part
/// of it, in their order, and nothing outside an open transaction.
pub proof fn law_only_new_partitions_are_enrolled(
    sequencing: producer::Sequencing,
    topic: Seq<char>,
    partitions: Seq<i32>,
    n: nat,
)
    requires
        n <= partitions.len(),
    ensures
        sequencing.transactional && sequencing.txn == TxnState::InTransaction ==> not_enrolled(
            sequencing,
            topic,
            partitions,
            n,
        ) == partitions.take(n as int).filter(|p: i32| !sequencing.enrolled.contains((topic, p))),
        !(sequencing.transactional && sequencing.txn == TxnState::InTransaction) ==> not_enrolled(
            sequencing,
            topic,
            partitions,
            n,
        ) == Seq::<i32>::empty(),
    decreases n,
{
    reveal(Seq::filter);
    let fresh = |p: i32| !sequencing.enrolled.contains((topic, p));
    if n > 0 {
        law_only_new_partitions_are_enrolled(sequencing, topic, partitions, (n - 1) as nat);
        assert(partitions.take(n as int).drop_last() =~= partitions.take(n - 1));
        assert(partitions.take(n as int).last() == partitions[n - 1]);
    } else {
        assert(partitions.take(0).filter(fresh) =~= Seq::empty());
    }
}

/// Enrolling partitions adds exactly them to the transaction, and changes nothing else; a
/// second request for them is not needed.
pub proof fn law_enrolled_partitions_stay_enrolled(
    sequencing: producer::Sequencing,
    topic: Seq<char>,
    partitions: Seq<i32>,
    n: nat,
)
    requires
        n <= partitions.len(),
    ensures
        ({
            let after = all_enrolled(sequencing, topic, partitions, n);
            &&& forall|slot: (Seq<char>, i32)| #[trigger]
                after.enrolled.contains(slot) <==> sequencing.enrolled.contains(slot) || (slot.0
                    == topic && partitions.take(n as int).contains(slot.1))
            &&& after.identity == sequencing.identity
            &&& after.txn == sequencing.txn
            &&& after.sequences == sequencing.sequences
            &&& after.transactional == sequencing.transactional
        }),
        not_enrolled(
            all_enrolled(sequencing, topic, partitions, n),
            topic,
            partitions.take(n as int),
            n,
        ).len() == 0,
{
    lemma_all_enrolled(sequencing, topic, partitions, n);
    let after = all_enrolled(sequencing, topic, partitions, n);
    let these = partitions.take(n as int);
    law_only_new_partitions_are_enrolled(after, topic, these, n);
    assert(these.take(n as int) =~= these);
    let fresh = |p: i32| !after.enrolled.contains((topic, p));
    if these.filter(fresh).len() > 0 {
        let p = these.filter(fresh)[0];
        these.lemma_filter_pred(fresh, 0);
        assert(fresh(p));
        lemma_filtered(these, fresh, 0);
        assert(these.contains(p));
    }
}

proof fn lemma_filtered<A>(list: Seq<A>, keep: spec_fn(A) -> bool, i: int)
    requires
        0 <= i < list.filter(keep).len(),
    ensures
        list.contains(list.filter(keep)[i]),
    decreases list.len(),
{
    reveal(Seq::filter);
    if list.len() > 0 {
        let earlier = list.drop_last().filter(keep);
        if i < earlier.len() {
            lemma_filtered(list.drop_last(), keep, i);
            let k = choose|k: int|
                0 <= k < list.drop_last().len() && list.drop_last()[k] == earlier[i];
            assert(list[k] == list.filter(keep)[i]);
        } else {
            assert(list[list.len() - 1] == list.filter(keep)[i]);
        }
    }
}

proof fn lemma_all_enrolled(
    sequencing: producer::Sequencing,
    topic: Seq<char>,
    partitions: Seq<i32>,
    n: nat,
)
    requires
        n <= partitions.len(),
    ensures
        ({
            let after = all_enrolled(sequencing, topic, partitions, n);
            &&& forall|slot: (Seq<char>, i32)| #[trigger]
                after.enrolled.contains(slot) <==> sequencing.enrolled.contains(slot) || (slot.0
                    == topic && partitions.take(n as int).contains(slot.1))
            &&& after.identity == sequencing.identity
            &&& after.txn == sequencing.txn
            &&& after.sequences == sequencing.sequences
            &&& after.transactional == sequencing.transactional
        }),
    decreases n,
{
    if n > 0 {
        lemma_all_enrolled(sequencing, topic, partitions, (n - 1) as nat);
        let after = all_enrolled(sequencing, topic, partitions, n);
        assert forall|slot: (Seq<char>, i32)| #[trigger]
            after.enrolled.contains(slot) <==> sequencing.enrolled.contains(slot) || (slot.0
                == topic && partitions.take(n as int).contains(slot.1)) by {
            let now = partitions.take(n as int);
            let earlier = partitions.take(n - 1);
            assert(now[n - 1] == partitions[n - 1]);
            if earlier.contains(slot.1) {
                let k = choose|k: int| 0 <= k < earlier.len() && earlier[k] == slot.1;
                assert(now[k] == slot.1);
            }
            if now.contains(slot.1) && slot.1 != partitions[n - 1] {
                let k = choose|k: int| 0 <= k < now.len() && now[k] == slot.1;
                assert(earlier[k] == slot.1);
            }
        }
    }
}

/// Nothing that is staged is lost or moved: a partition's staged records are the ones it
/// had, then those that arrived for it, in their order, and what they take is counted for
/// each: its key, its value and sixteen bytes. What is staged for other partitions stays.
pub proof fn law_staged_records_keep_their_order(
    staged: Map<(Seq<char>, i32), Accumulating>,
    slot: (Seq<char>, i32),
    arrivals: Seq<(Message, u64)>,
    n: nat,
)
    requires
        0 < n <= arrivals.len(),
    ensures
        ({
            let after = after_arrivals(staged, slot, arrivals, n);
            let arrived = arrivals.take(n as int).map_values(|a: (Message, u64)| a.0);
            &&& after.dom().contains(slot)
            &&& staged.dom().contains(slot) ==> after[slot].records == staged[slot].records
                + arrived && after[slot].since == staged[slot].since
            &&& !staged.dom().contains(slot) ==> after[slot].records == arrived
                && after[slot].since == arrivals[0].1
            &&& forall|other: (Seq<char>, i32)|
                other != slot ==> #[trigger] after.dom().contains(other)
                    == staged.dom().contains(other) && after[other] == staged[other]
        }),
    decreases n,
{
    let message = |a: (Message, u64)| a.0;
    let arrived = arrivals.take(n as int).map_values(message);
    let after = after_arrivals(staged, slot, arrivals, n);
    if n > 1 {
        law_staged_records_keep_their_order(staged, slot, arrivals, (n - 1) as nat);
        let earlier = arrivals.take(n - 1).map_values(message);
        assert(arrived =~= earlier.push(arrivals[n - 1].0));
        assert(staged.dom().contains(slot) ==> after[slot].records =~= staged[slot].records
            + arrived);
    } else {
        assert(after_arrivals(staged, slot, arrivals, 0) == staged);
        assert(arrived =~= seq![arrivals[0].0]);
        assert(staged.dom().contains(slot) ==> after[slot].records =~= staged[slot].records
            + arrived);
    }
}

/// What staged records are taken to weigh: the bytes of key and value, and sixteen more,
/// for each, as far as a machine can count.
pub proof fn law_a_record_weighs_its_key_and_value(
    staged: Map<(Seq<char>, i32), Accumulating>,
    slot: (Seq<char>, i32),
    message: Message,
    now: u64,
)
    ensures
        ({
            let key = match message.key {
                Some(k) => k.len(),
                None => 0,
            };
            let value = match message.value {
                Some(v) => v.len(),
                None => 0,
            };
            let earlier = if staged.dom().contains(slot) {
                staged[slot].bytes as nat
            } else {
                0
            };
            let weight = earlier + key + value + 16;
            accumulated(staged, slot, message, now).bytes == if weight <= usize::MAX {
                weight
            } else {
                usize::MAX as nat
            }
        }),
{
}

/// Staged records go out when they fill a batch or when their linger is over, and not
/// before. The deadline is the moment when the linger is over.
pub proof fn law_staged_records_wait_for_company(
    outbox: Outbox,
    staged: Accumulating,
    now: u64,
)
    ensures
        staged.bytes >= outbox.batch_size ==> is_due(outbox, staged, now),
        outbox.linger == 0 ==> is_due(outbox, staged, now),
        now >= staged.since + outbox.linger ==> is_due(outbox, staged, now),
        staged.bytes < outbox.batch_size && outbox.linger > 0 && now < staged.since
            + outbox.linger ==> !is_due(outbox, staged, now),
        staged.since + outbox.linger <= u64::MAX ==> deadline(outbox, staged) == staged.since
            + outbox.linger,
        staged.since + outbox.linger > u64::MAX ==> deadline(outbox, staged) == u64::MAX,
{
}

/// Exactly the partitions that are due are ready, in their order.
pub proof fn law_exactly_the_due_partitions_are_ready(
    outbox: Outbox,
    keys: Seq<(Seq<char>, i32)>,
    now: u64,
    n: nat,
)
    requires
        n <= keys.len(),
    ensures
        due(outbox, keys, now, n) == keys.take(n as int).filter(
            |slot: (Seq<char>, i32)| is_due(outbox, outbox.staged[slot], now),
        ),
    decreases n,
{
    reveal(Seq::filter);
    if n > 0 {
        law_exactly_the_due_partitions_are_ready(outbox, keys, now, (n - 1) as nat);
        assert(keys.take(n as int).drop_last() =~= keys.take(n - 1));
        assert(keys.take(n as int).last() == keys[n - 1]);
    } else {
        assert(due(outbox, keys, now, n) =~= keys.take(n as int).filter(
            |slot: (Seq<char>, i32)| is_due(outbox, outbox.staged[slot], now),
        ));
    }
}

/// Each partition that has a leader goes to that leader, in order, and no other goes
/// anywhere.
pub proof fn law_each_partition_goes_to_its_leader(
    keys: Seq<(Seq<char>, i32)>,
    leaders: Seq<Option<Seq<char>>>,
    n: nat,
)
    requires
        keys.len() == leaders.len(),
        n <= keys.len(),
    ensures
        with_leaders(keys, leaders, n) == Seq::new(n, |i: int| i).filter(
            |i: int| leaders[i] is Some,
        ).map_values(|i: int| (leaders[i].unwrap(), keys[i])),
    decreases n,
{
    reveal(Seq::filter);
    let led = |i: int| leaders[i] is Some;
    let entry = |i: int| (leaders[i].unwrap(), keys[i]);
    let all = Seq::new(n, |i: int| i);
    if n > 0 {
        law_each_partition_goes_to_its_leader(keys, leaders, (n - 1) as nat);
        let earlier = Seq::new((n - 1) as nat, |i: int| i);
        assert(all.drop_last() =~= earlier);
        assert(all.last() == n - 1);
        if leaders[n - 1] is Some {
            assert(all.filter(led) == earlier.filter(led).push(n - 1));
            assert(all.filter(led).map_values(entry) =~= earlier.filter(led).map_values(
                entry,
            ).push(entry(n - 1)));
        }
    }
    assert(with_leaders(keys, leaders, n) =~= all.filter(led).map_values(entry));
}

/// A window is as deep as the longest queue that goes into it.
pub proof fn law_a_window_is_as_deep_as_its_longest_queue(
    pending: Map<(Seq<char>, i32), Seq<Bytes>>,
    pairs: Seq<(Seq<char>, (Seq<char>, i32))>,
    n: nat,
)
    requires
        n <= pairs.len(),
    ensures
        forall|i: int|
            0 <= i < n ==> window::queue_of(pending, (#[trigger] pairs[i]).1).len() <= longest(
                pending,
                pairs,
                n,
            ),
        longest(pending, pairs, n) > 0 ==> exists|i: int|
            0 <= i < n && window::queue_of(pending, (#[trigger] pairs[i]).1).len() == longest(
                pending,
                pairs,
                n,
            ),
    decreases n,
{
    if n > 0 {
        law_a_window_is_as_deep_as_its_longest_queue(pending, pairs, (n - 1) as nat);
        let longest_before = longest(pending, pairs, (n - 1) as nat);
        if longest(pending, pairs, n) == longest_before && longest_before > 0 {
            let i = choose|i: int|
                0 <= i < n - 1 && window::queue_of(pending, (#[trigger] pairs[i]).1).len()
                    == longest_before;
            assert(window::queue_of(pending, pairs[i].1).len() == longest(pending, pairs, n));
        } else {
            assert(window::queue_of(pending, pairs[n - 1].1).len() == window::queue_of(
                pending,
                pairs[n - 1].1,
            ).len());
        }
    }
}

/// What a round sends: of each partition that has a batch for it that one batch, the
/// oldest in the first round, the next in the second, and so on; nothing of the others.
/// The bytes are those that were queued, under the partition's own topic and number.
pub proof fn law_a_round_carries_each_partitions_next_batch(
    pending: Map<(Seq<char>, i32), Seq<Bytes>>,
    slots: Seq<(Seq<char>, i32)>,
    round: nat,
    n: nat,
)
    requires
        n <= slots.len(),
    ensures
        ({
            let with_batch = slots.take(n as int).filter(
                |slot: (Seq<char>, i32)|
                    pending.dom().contains(slot) && round < pending[slot].len(),
            );
            &&& taking(pending, slots, round, n) == with_batch
            &&& request_entries(pending, slots, round, n) == with_batch.map_values(
                |slot: (Seq<char>, i32)|
                    (slot.0, (slot.1, buffer::contents(pending[slot][round as int]))),
            )
        }),
    decreases n,
{
    reveal(Seq::filter);
    let has = |slot: (Seq<char>, i32)| pending.dom().contains(slot) && round < pending[slot].len();
    let entry = |slot: (Seq<char>, i32)|
        (slot.0, (slot.1, buffer::contents(pending[slot][round as int])));
    let now = slots.take(n as int);
    if n > 0 {
        law_a_round_carries_each_partitions_next_batch(pending, slots, round, (n - 1) as nat);
        let earlier = slots.take(n - 1);
        assert(now.drop_last() =~= earlier);
        assert(now.last() == slots[n - 1]);
        if has(slots[n - 1]) {
            assert(now.filter(has) == earlier.filter(has).push(slots[n - 1]));
            assert(now.filter(has).map_values(entry) =~= earlier.filter(has).map_values(
                entry,
            ).push(entry(slots[n - 1])));
        }
    }
    assert(taking(pending, slots, round, n) =~= now.filter(has));
    assert(request_entries(pending, slots, round, n) =~= now.filter(has).map_values(entry));
}

/// A round asks each broker for exactly those of its own partitions that have a batch for
/// it, in their order, and leaves out a broker that has none.
pub proof fn law_a_round_asks_each_broker_for_its_own(
    pending: Map<(Seq<char>, i32), Seq<Bytes>>,
    brokers: Seq<(Seq<char>, Seq<(Seq<char>, i32)>)>,
    round: nat,
    n: nat,
)
    requires
        n <= brokers.len(),
    ensures
        round_of(pending, brokers, round, n) == brokers.take(n as int).map_values(
            |b: (Seq<char>, Seq<(Seq<char>, i32)>)|
                (
                    b.0,
                    b.1.filter(
                        |slot: (Seq<char>, i32)|
                            pending.dom().contains(slot) && round < pending[slot].len(),
                    ),
                ),
        ).filter(|b: (Seq<char>, Seq<(Seq<char>, i32)>)| b.1.len() > 0),
    decreases n,
{
    reveal(Seq::filter);
    let has = |slot: (Seq<char>, i32)| pending.dom().contains(slot) && round < pending[slot].len();
    let own = |b: (Seq<char>, Seq<(Seq<char>, i32)>)| (b.0, b.1.filter(has));
    let some = |b: (Seq<char>, Seq<(Seq<char>, i32)>)| b.1.len() > 0;
    let now = brokers.take(n as int).map_values(own);
    if n > 0 {
        law_a_round_asks_each_broker_for_its_own(pending, brokers, round, (n - 1) as nat);
        assert(now.drop_last() =~= brokers.take(n - 1).map_values(own));
        let slots = brokers[n - 1].1;
        law_a_round_carries_each_partitions_next_batch(pending, slots, round, slots.len());
        assert(slots.take(slots.len() as int) =~= slots);
        assert(now.last() == own(brokers[n - 1]));
    }
    assert(round_of(pending, brokers, round, n) =~= now.filter(some));
}

/// Where a batch begins is told by the last entry for its partition, and is -1 where there
/// is none.
pub proof fn law_the_last_write_to_a_partition_counts(
    written: Seq<(Seq<char>, i32, i64)>,
    slot: (Seq<char>, i32),
    n: nat,
)
    requires
        n <= written.len(),
    ensures
        forall|i: int|
            0 <= i < n && (#[trigger] written[i]).0 == slot.0 && written[i].1 == slot.1 && (
            forall|j: int|
                i < j < n ==> (#[trigger] written[j]).0 != slot.0 || written[j].1 != slot.1)
                ==> last_offset(written, slot, n) == written[i].2,
        (forall|i: int|
            0 <= i < n ==> (#[trigger] written[i]).0 != slot.0 || written[i].1 != slot.1)
            ==> last_offset(written, slot, n) == -1,
    decreases n,
{
    if n > 0 {
        law_the_last_write_to_a_partition_counts(written, slot, (n - 1) as nat);
        assert(written[n - 1] == written[n - 1]);
    }
}

proof fn lemma_keyless_only_advance(list: Seq<Message>, start: u32, n: nat)
    requires
        n <= list.len(),
    ensures
        counter_after(list, start, n) as int == (start + list.take(n as int).filter(
            |m: Message| m.key is None,
        ).len()) % 0x1_0000_0000,
    decreases n,
{
    reveal(Seq::filter);
    let keyless = |m: Message| m.key is None;
    if n > 0 {
        lemma_keyless_only_advance(list, start, (n - 1) as nat);
        assert(list.take(n as int).drop_last() =~= list.take(n - 1));
        assert(list.take(n as int).last() == list[n - 1]);
    }
}

/// Where records go. Each has one partition of the topic: one with a key the partition of
/// its key's hash under the producer's partitioner, and one without a key the next in
/// turn, the turns counting records without a key alone. A partition gets exactly the
/// records that are its own, in their order.
pub proof fn law_every_record_goes_to_its_partition(
    outbox: Outbox,
    list: Seq<Message>,
    count: i32,
    partition: i32,
    n: nat,
)
    requires
        count > 0,
        n <= list.len(),
    ensures
        forall|i: int|
            #![trigger list[i]]
            0 <= i < list.len() ==> {
                let p = partition_of(outbox, list, count, i);
                let turns = list.take(i).filter(|m: Message| m.key is None).len();
                &&& 0 <= p < count
                &&& list[i].key is Some && outbox.partitioner == Partitioner::Crc32 ==> p
                    == partitioner::crc32_of(list[i].key.unwrap()) as int % count as int
                &&& list[i].key is Some && outbox.partitioner == Partitioner::Murmur2 ==> p == (
                partitioner::murmur2_of(list[i].key.unwrap()) as int % 0x8000_0000) % count as int
                &&& list[i].key is None ==> p == ((outbox.round_robin + turns) % 0x1_0000_0000)
                    % count as int
            },
        counter_after(list, outbox.round_robin, n) as int == (outbox.round_robin + list.take(
            n as int,
        ).filter(|m: Message| m.key is None).len()) % 0x1_0000_0000,
        placed(outbox, list, count, partition, n) == Seq::new(n, |i: int| i).filter(
            |i: int| partition_of(outbox, list, count, i) == partition,
        ).map_values(|i: int| list[i]),
{
    assert forall|i: int|
        #![trigger list[i]]
        0 <= i < list.len() implies {
        let p = partition_of(outbox, list, count, i);
        let turns = list.take(i).filter(|m: Message| m.key is None).len();
        &&& 0 <= p < count
        &&& list[i].key is Some && outbox.partitioner == Partitioner::Crc32 ==> p
            == partitioner::crc32_of(list[i].key.unwrap()) as int % count as int
        &&& list[i].key is Some && outbox.partitioner == Partitioner::Murmur2 ==> p == (
        partitioner::murmur2_of(list[i].key.unwrap()) as int % 0x8000_0000) % count as int
        &&& list[i].key is None ==> p == ((outbox.round_robin + turns) % 0x1_0000_0000)
            % count as int
    } by {
        lemma_keyless_only_advance(list, outbox.round_robin, i as nat);
        let counter = counter_after(list, outbox.round_robin, i as nat);
        vstd::arithmetic::div_mod::lemma_mod_bound(counter as int, count as int);
        if let Some(key) = list[i].key {
            partitioner::law_each_partitioner_has_its_own_hash(key, count);
            vstd::arithmetic::div_mod::lemma_mod_bound(
                partitioner::key_number(outbox.partitioner, key) as int,
                count as int,
            );
        }
    }
    lemma_keyless_only_advance(list, outbox.round_robin, n);
    lemma_placed(outbox, list, count, partition, n);
}

proof fn lemma_placed(outbox: Outbox, list: Seq<Message>, count: i32, partition: i32, n: nat)
    requires
        n <= list.len(),
    ensures
        placed(outbox, list, count, partition, n) == Seq::new(n, |i: int| i).filter(
            |i: int| partition_of(outbox, list, count, i) == partition,
        ).map_values(|i: int| list[i]),
    decreases n,
{
    reveal(Seq::filter);
    let here = |i: int| partition_of(outbox, list, count, i) == partition;
    let record = |i: int| list[i];
    let all = Seq::new(n, |i: int| i);
    if n > 0 {
        lemma_placed(outbox, list, count, partition, (n - 1) as nat);
        let earlier = Seq::new((n - 1) as nat, |i: int| i);
        assert(all.drop_last() =~= earlier);
        assert(all.last() == n - 1);
        if here(n - 1) {
            assert(all.filter(here) == earlier.filter(here).push(n - 1));
            assert(all.filter(here).map_values(record) =~= earlier.filter(here).map_values(
                record,
            ).push(record(n - 1)));
        }
    }
    assert(placed(outbox, list, count, partition, n) =~= all.filter(here).map_values(record));
}

/// A window went well where no answer is an error and at least one batch left its queue, and
/// only then.
pub proof fn law_a_window_goes_well_without_errors(
    pending: Map<(Seq<char>, i32), Seq<Bytes>>,
    replies: Seq<window::Reply>,
)
    ensures
        went_well(pending, replies) <==> (forall|i: int|
            0 <= i < replies.len() ==> (#[trigger] replies[i]).code == 0) && window::writes(
            pending,
            replies,
            replies.len(),
        ).len() >= 1,
{
}

} // verus!
