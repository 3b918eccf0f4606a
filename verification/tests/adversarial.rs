//! What the producer does when the cluster misbehaves: a leader moves in the middle of a
//! produce, a coordinator migrates, a producer is fenced.
//!
//! These are the cases where being wrong is *silent*: a retry that writes twice reports
//! success. So the assertions are on what the simulated broker **accepted**.

use std::collections::BTreeMap;

use barnabas::client::{disposition, Disposition, Error};
use barnabas::frames::Connection;
use barnabas::group::TopicPartition;
use barnabas::producer::{ProducerIdentity, TxnState};
use barnabas::retry::Verdict;
use barnabas::routing::{after_call, check_idle, CallEnd};
use barnabas::sender::{
    first_offset, offsets_by_partition, Flush, Next, Producer, ProducerRecord, ProduceRequest,
    Routed, Target,
};
use barnabas::window::Answer;
use bytes::Bytes;

const BROKER: &str = "broker-1:9092";

#[derive(Debug, Clone, Copy, PartialEq, Eq)]
enum Api {
    Produce,
    Metadata,
    InitProducerId,
    FindCoordinator,
    AddPartitionsToTxn,
    EndTxn,
}

/// A code to answer with, so many times, after so many requests went through.
struct Fault {
    api: Api,
    code: i16,
    times: usize,
    after: usize,
}

/// A broker that never writes twice and never out of sequence.
#[derive(Default)]
struct Sim {
    faults: Vec<Fault>,
    closes: usize,
    hangs: usize,
    requests: Vec<Api>,
    /// Partition, first sequence, count.
    produced: Vec<(i32, i32, i32)>,
    produce_widths: Vec<usize>,
    enroll_widths: Vec<usize>,
    next_sequence: BTreeMap<i32, i32>,
    next_offset: BTreeMap<i32, i64>,
}

enum Lost {
    Closed,
    Hung,
}

fn be32(bytes: &[u8], at: usize) -> i32 {
    i32::from_be_bytes([bytes[at], bytes[at + 1], bytes[at + 2], bytes[at + 3]])
}

impl Sim {
    fn count(&self, api: Api) -> usize {
        self.requests.iter().filter(|a| **a == api).count()
    }

    fn take(&mut self, api: Api) -> i16 {
        self.requests.push(api);
        for fault in &mut self.faults {
            if fault.api == api && fault.times > 0 {
                if fault.after > 0 {
                    fault.after -= 1;
                } else {
                    fault.times -= 1;
                    return fault.code;
                }
            }
        }
        0
    }

    fn produce(&mut self, request: &ProduceRequest) -> Result<Vec<(i32, i16, i64)>, Lost> {
        let code = self.take(Api::Produce);
        if self.closes > 0 {
            self.closes -= 1;
            return Err(Lost::Closed);
        }
        if self.hangs > 0 {
            self.hangs -= 1;
            return Err(Lost::Hung);
        }
        let mut answers = Vec::new();
        let mut width = 0;
        for (_, partitions) in &request.topics {
            for data in partitions {
                width += 1;
                let bytes = data.records.as_ref();
                let (base, count) = (be32(bytes, 53), be32(bytes, 57));
                let expected = self.next_sequence.entry(data.index).or_insert(0);
                let offset = self.next_offset.entry(data.index).or_insert(0);
                if code != 0 {
                    answers.push((data.index, code, -1));
                } else if base != *expected {
                    answers.push((data.index, 45, -1));
                } else {
                    answers.push((data.index, 0, *offset));
                    self.produced.push((data.index, base, count));
                    *expected += count;
                    *offset += i64::from(count);
                }
            }
        }
        self.produce_widths.push(width);
        Ok(answers)
    }
}

struct Client {
    producer: Producer,
    sim: Sim,
    leader_known: bool,
    /// What the producer decided about each lost connection: how long to wait before
    /// another try, or not to try again.
    lost: Vec<Option<u64>>,
    /// The waits that the producer asked for between windows.
    waits: Vec<u64>,
}

impl Client {
    fn open(sim: Sim) -> Self {
        let mut me = Client {
            producer: Producer::transactional("txn-1"),
            sim,
            leader_known: false,
            lost: Vec::new(),
            waits: Vec::new(),
        };
        let request = me.producer.init_producer_id();
        assert_eq!(request.transactional_id.as_deref(), Some("txn-1"));
        assert_eq!((request.producer_id, request.producer_epoch), (-1, -1));
        me.coordinated("InitProducerId", Api::InitProducerId)
            .expect("init");
        me.producer
            .on_init_producer_id(ProducerIdentity { id: 7, epoch: 0 });
        me
    }

    /// A request to the coordinator, found first where it is not known.
    fn coordinated(&mut self, op: &'static str, api: Api) -> Result<(), Error> {
        for attempt in 0.. {
            let mut search = 0;
            while let Target::Find(id) = self.producer.coordinator() {
                assert_eq!(id, "txn-1");
                let code = self.sim.take(Api::FindCoordinator);
                let verdict = self.producer.on_coordinator_found(
                    search,
                    code,
                    disposition(code),
                    "broker-1",
                    9092,
                );
                if let Verdict::Fail { .. } = verdict {
                    panic!("no coordinator");
                }
                search += 1;
            }
            match self.producer.coordinator() {
                Target::At(addr) => assert_eq!(addr, BROKER),
                other => panic!("unexpected {other:?}"),
            }
            let code = self.sim.take(api);
            match self
                .producer
                .on_coordinator_answer(attempt, op, code, disposition(code))
            {
                Verdict::Done => return Ok(()),
                Verdict::Again { .. } => {}
                Verdict::Fail { op, code, disposition, .. } => {
                    return Err(Error::Broker { op, code, disposition });
                }
            }
        }
        unreachable!()
    }

    fn enroll(&mut self, topic: &str, partitions: &[i32]) -> Result<(), Error> {
        if let Some(request) = self.producer.enroll_all(topic, partitions)? {
            self.sim.enroll_widths.push(request.partitions.len());
            self.coordinated("AddPartitionsToTxn", Api::AddPartitionsToTxn)?;
            self.producer.on_enrolled(topic, &request.partitions);
        }
        Ok(())
    }

    fn enqueue(&mut self, topic: &str, partition: i32, records: &[ProducerRecord]) -> Result<(), Error> {
        self.enroll(topic, &[partition])?;
        self.producer.enqueue(topic, partition, records, 1_000)
    }

    fn send(&mut self, topic: &str, partition: i32, records: &[ProducerRecord]) -> Result<i64, Error> {
        self.enqueue(topic, partition, records)?;
        Ok(first_offset(&self.flush()?, topic, partition))
    }

    fn send_keyed(&mut self, topic: &str, records: &[ProducerRecord]) -> Result<Vec<(i32, i64)>, Error> {
        let batches = self.producer.place(topic, records, 4)?;
        let partitions: Vec<i32> = batches.iter().map(|(tp, _)| tp.partition).collect();
        self.enroll(topic, &partitions)?;
        for (tp, list) in &batches {
            self.producer.enqueue(&tp.topic, tp.partition, list, 1_000)?;
        }
        Ok(offsets_by_partition(&self.flush()?, topic, &partitions))
    }

    fn flush(&mut self) -> Result<Vec<(String, i32, i64)>, Error> {
        let mut flush = Flush::new();
        while !self.producer.is_idle() {
            if !self.leader_known {
                self.sim.take(Api::Metadata);
                self.leader_known = true;
            }
            let keys = self.producer.pending_keys();
            let leaders = keys.iter().map(|_| Some(BROKER.to_owned())).collect();
            let (by_broker, depth) = match self.producer.route(&mut flush, leaders) {
                Routed::Window { by_broker, depth } => (by_broker, depth),
                other => panic!("unexpected {other:?}"),
            };
            let mut answers = Vec::new();
            let mut lost = None;
            for round in 0..depth {
                for (addr, keys) in self.producer.round(&by_broker, round) {
                    assert_eq!(addr, BROKER);
                    let request = self.producer.produce_request(&keys, round);
                    assert_eq!(request.acks, -1);
                    match self.sim.produce(&request) {
                        Ok(list) => {
                            for (partition, code, base_offset) in list {
                                answers.push(Answer {
                                    round,
                                    slot: TopicPartition::new("t", partition),
                                    code,
                                    disposition: disposition(code),
                                    base_offset,
                                });
                            }
                        }
                        Err(end) => lost = Some(end),
                    }
                }
            }
            if let Some(end) = lost {
                let again = self
                    .producer
                    .on_connection_lost(&mut flush, matches!(end, Lost::Closed));
                self.lost.push(again);
                match again {
                    Some(_) => continue,
                    None => return Err(Error::Missing("an answer")),
                }
            }
            let after = self.producer.settle(&mut flush, &answers);
            if !after.moved.is_empty() {
                self.leader_known = false;
            }
            for topic in &after.refresh {
                assert_eq!(topic, "t");
                self.sim.take(Api::Metadata);
                self.leader_known = true;
            }
            match after.next {
                Next::Done => break,
                Next::Again { wait_ms } => self.waits.push(wait_ms),
                Next::Failed { error, .. } => return Err(error),
            }
        }
        Ok(flush.finish())
    }

    fn commit(&mut self) -> Result<(), Error> {
        let request = self.producer.commit_transaction()?;
        assert!(request.committed);
        self.coordinated("EndTxn", Api::EndTxn)?;
        self.producer.on_end_transaction();
        Ok(())
    }
}

fn records(n: usize) -> Vec<ProducerRecord> {
    (0..n)
        .map(|i| ProducerRecord::new(None, Some(Bytes::from(format!("v{i}")))))
        .collect()
}

fn keyed() -> Vec<ProducerRecord> {
    (0..40)
        .map(|i| {
            ProducerRecord::new(
                Some(Bytes::from(format!("key-{i}"))),
                Some(Bytes::from(format!("v{i}"))),
            )
        })
        .collect()
}

fn faulty(api: Api, code: i16, times: usize, after: usize) -> Sim {
    Sim {
        faults: vec![Fault { api, code, times, after }],
        ..Sim::default()
    }
}

/// The broker answers `NOT_LEADER_OR_FOLLOWER` once. The re-send carries the *same*
/// sequence numbers, so exactly one batch is accepted.
#[test]
fn adversarial_a_moved_leader_is_retried_without_duplicating() {
    let mut client = Client::open(faulty(Api::Produce, 6, 1, 0));
    client.producer.begin_transaction().expect("begin");
    client.send("t", 0, &records(3)).expect("send");
    client.commit().expect("commit");

    let sim = &client.sim;
    assert_eq!(
        sim.produced,
        vec![(0, 0, 3)],
        "the retry wrote a second batch, or the first was lost"
    );
    assert_eq!(sim.count(Api::Produce), 2, "expected one retry");
    assert!(
        sim.count(Api::Metadata) >= 2,
        "a moved leader must trigger a metadata refresh, not a blind retry"
    );
}

/// Five failures deep, the accepted batch still starts at sequence 0.
#[test]
fn adversarial_repeated_retries_keep_the_same_sequence() {
    let mut client = Client::open(faulty(Api::Produce, 6, 5, 0));
    client.producer.begin_transaction().expect("begin");
    client.send("t", 0, &records(2)).expect("send");
    assert_eq!(client.sim.produced, vec![(0, 0, 2)]);
}

/// `NOT_COORDINATOR` means that the coordinator moved: it is found again.
#[test]
fn adversarial_a_moved_coordinator_is_rediscovered() {
    let client = Client::open(faulty(Api::InitProducerId, 16, 1, 0));
    assert!(
        client.sim.count(Api::FindCoordinator) >= 2,
        "NOT_COORDINATOR was retried in place instead of re-discovering \
         (FindCoordinator seen {} times)",
        client.sim.count(Api::FindCoordinator)
    );
}

/// A cold cluster answers `COORDINATOR_LOAD_IN_PROGRESS`: a state, not a failure.
#[test]
fn adversarial_a_warming_coordinator_is_waited_out() {
    let client = Client::open(faulty(Api::InitProducerId, 14, 3, 0));
    assert_eq!(client.sim.count(Api::InitProducerId), 4);
}

/// `CONCURRENT_TRANSACTIONS` comes while the previous markers are written.
#[test]
fn adversarial_concurrent_transactions_is_waited_out() {
    let mut client = Client::open(faulty(Api::AddPartitionsToTxn, 51, 2, 0));
    client.producer.begin_transaction().expect("begin");
    client.send("t", 0, &records(1)).expect("send");
    assert_eq!(client.sim.count(Api::AddPartitionsToTxn), 3);
    assert_eq!(client.sim.produced, vec![(0, 0, 1)]);
}

/// `PRODUCER_FENCED` means that another instance took this transactional id.
#[test]
fn adversarial_a_fenced_producer_refuses_everything_afterwards() {
    let mut client = Client::open(faulty(Api::Produce, 90, 1, 0));
    client.producer.begin_transaction().expect("begin");

    let err = client
        .send("t", 0, &records(1))
        .expect_err("a fenced produce must fail");
    assert!(
        matches!(err, Error::Broker { disposition: Disposition::Fatal, .. }),
        "fencing must be fatal, got: {err:?}"
    );

    // And the producer is done: no further writes under a dead epoch.
    let again = client.send("t", 0, &records(1));
    assert!(
        matches!(again, Err(Error::Producer(_))),
        "a fenced producer accepted another send"
    );
    assert!(
        client.sim.produced.is_empty(),
        "a fenced producer wrote records"
    );
}

/// An out-of-sequence error means that the stream is already wrong.
#[test]
fn adversarial_an_out_of_sequence_error_is_not_retried() {
    let mut client = Client::open(faulty(Api::Produce, 45, 1, 0));
    client.producer.begin_transaction().expect("begin");
    let err = client.send("t", 0, &records(1)).expect_err("fatal");
    assert!(matches!(
        err,
        Error::Broker { disposition: Disposition::Fatal, .. }
    ));
    assert_eq!(
        client.sim.count(Api::Produce),
        1,
        "a sequence error was retried; that is how duplicates are written"
    );
}

/// The second transaction's batch starts where the first left off.
#[test]
fn adversarial_sequences_continue_across_transactions() {
    let mut client = Client::open(Sim::default());

    client.producer.begin_transaction().expect("begin 1");
    client.send("t", 0, &records(3)).expect("send 1");
    client.commit().expect("commit 1");

    client.producer.begin_transaction().expect("begin 2");
    client.send("t", 0, &records(2)).expect("send 2");
    client.commit().expect("commit 2");

    assert_eq!(
        client.sim.produced,
        vec![(0, 0, 3), (0, 3, 2)],
        "the second transaction restarted the sequence"
    );
}

/// Enrollment happens once per transaction, not once per batch.
#[test]
fn adversarial_a_partition_is_enrolled_once_per_transaction() {
    let mut client = Client::open(Sim::default());
    client.producer.begin_transaction().expect("begin");
    for _ in 0..3 {
        client.send("t", 0, &records(1)).expect("send");
    }
    client.commit().expect("commit");
    assert_eq!(client.sim.count(Api::AddPartitionsToTxn), 1);
    assert_eq!(client.sim.count(Api::Produce), 3);
}

/// A broker restart must not be permanent.
#[test]
fn a_closed_connection_is_reconnected() {
    let mut client = Client::open(Sim { closes: 1, ..Sim::default() });
    client.producer.begin_transaction().expect("begin");
    client
        .send("t", 0, &records(2))
        .expect("a closed connection must be reconnected, not fatal");
    assert_eq!(
        client.sim.produced,
        vec![(0, 0, 2)],
        "the reconnect wrote twice, or lost the batch"
    );
    assert_eq!(
        client.sim.count(Api::Produce),
        2,
        "expected exactly one reconnect"
    );
}

/// The retry after a reconnect carries the same sequence numbers.
#[test]
fn a_reconnect_does_not_renumber() {
    let mut client = Client::open(Sim { closes: 1, ..Sim::default() });
    client.producer.begin_transaction().expect("begin");
    client.send("t", 0, &records(3)).expect("first");
    client.send("t", 0, &records(2)).expect("second");
    assert_eq!(
        client.sim.produced,
        vec![(0, 0, 3), (0, 3, 2)],
        "sequences restarted across a reconnect"
    );
}

/// A broker that takes a request and never answers is not worth another try.
#[test]
fn a_hung_broker_times_out_rather_than_hanging() {
    let mut client = Client::open(Sim { hangs: 1, ..Sim::default() });
    client.producer.begin_transaction().expect("begin");
    assert!(
        client.send("t", 0, &records(1)).is_err(),
        "a hung broker must time out"
    );
    assert_eq!(client.lost, vec![None], "the producer must give up at once");
    assert_eq!(client.sim.count(Api::Produce), 1, "nothing is sent again");
    assert!(
        client.sim.produced.is_empty(),
        "nothing was accepted, so nothing may be reported as written"
    );
    assert_eq!(client.producer.queued(), 1, "the batch stays queued");
    // The connection goes with the request: its answer may still arrive.
    let after = after_call(0, CallEnd::TimedOut);
    assert!(after.drop && !after.again);
}

/// A producer writing to four partitions on one broker sends *one* `Produce`.
#[test]
fn one_produce_request_covers_every_partition_on_a_broker() {
    let mut client = Client::open(Sim::default());
    client.producer.begin_transaction().expect("begin");
    let written = client.send_keyed("t", &keyed()).expect("send");
    assert!(
        written.len() > 1,
        "the test needs keys spread over several partitions, got {written:?}"
    );

    let j = &client.sim;
    assert_eq!(
        j.produce_widths.len(),
        1,
        "expected one batched request, got {} ({:?})",
        j.produce_widths.len(),
        j.produce_widths
    );
    assert!(
        j.produce_widths[0] > 1,
        "the single request carried only one partition: {:?}",
        j.produce_widths
    );
    assert_eq!(
        j.produced.len(),
        j.produce_widths[0],
        "every partition in the request must be accounted for"
    );
}

/// One enrollment request, not one per partition.
#[test]
fn partitions_are_enrolled_in_one_request() {
    let mut client = Client::open(Sim::default());
    client.producer.begin_transaction().expect("begin");
    client.send_keyed("t", &keyed()).expect("send");
    assert_eq!(
        client.sim.count(Api::AddPartitionsToTxn),
        1,
        "enrollment was sent per partition instead of once"
    );
    assert!(
        client.sim.enroll_widths[0] > 1,
        "the enrollment carried one partition: {:?}",
        client.sim.enroll_widths
    );
}

/// A partition whose leader moved is sent again, and none is written twice.
#[test]
fn only_the_failed_partition_is_retried() {
    let mut client = Client::open(faulty(Api::Produce, 6, 1, 0));
    client.producer.begin_transaction().expect("begin");
    client.send_keyed("t", &keyed()).expect("send");

    let mut partitions: Vec<i32> = client.sim.produced.iter().map(|(p, _, _)| *p).collect();
    partitions.sort_unstable();
    let unique: std::collections::BTreeSet<i32> = partitions.iter().copied().collect();
    assert_eq!(
        partitions.len(),
        unique.len(),
        "a partition was written twice: {partitions:?}"
    );
}

/// Five batches go out as five requests before any is awaited, and the log still reads
/// in order.
#[test]
fn a_window_of_batches_arrives_in_sequence() {
    let mut client = Client::open(Sim::default());
    client.producer.begin_transaction().expect("begin");
    for _ in 0..5 {
        client.enqueue("t", 0, &records(2)).expect("enqueue");
    }
    assert_eq!(client.producer.queued(), 5);

    let written = client.flush().expect("flush");
    assert_eq!(written.len(), 5, "every batch must be acknowledged");
    assert_eq!(client.producer.queued(), 0);

    assert_eq!(
        client.sim.produced,
        vec![(0, 0, 2), (0, 2, 2), (0, 4, 2), (0, 6, 2), (0, 8, 2)],
        "sequences must be contiguous and in order"
    );
    // Five batches, one request each: they were pipelined, not merged.
    assert_eq!(
        client.sim.produce_widths.len(),
        5,
        "expected five requests, got {:?}",
        client.sim.produce_widths
    );
}

/// Ten batches with a limit of three go out as windows of three.
#[test]
fn the_window_is_bounded_by_max_in_flight() {
    let mut client = Client::open(Sim::default());
    client.producer.set_max_in_flight(3);
    client.producer.begin_transaction().expect("begin");
    for _ in 0..10 {
        client.enqueue("t", 0, &records(1)).expect("enqueue");
    }
    client.flush().expect("flush");

    assert_eq!(client.sim.produced.len(), 10);
    for (i, (_, base, _)) in client.sim.produced.iter().enumerate() {
        assert_eq!(*base, i as i32, "sequences must be 0..10 in order");
    }
}

/// The broker rejects the first request of a window. Every later one is then out of
/// sequence, which here is a consequence: the whole window goes again, in order.
#[test]
fn a_failure_mid_window_resends_everything_behind_it() {
    let mut client = Client::open(faulty(Api::Produce, 6, 1, 0));
    client.producer.begin_transaction().expect("begin");
    for _ in 0..4 {
        client.enqueue("t", 0, &records(2)).expect("enqueue");
    }
    let written = client.flush().expect("flush");

    assert_eq!(written.len(), 4, "every batch must land exactly once");
    assert_eq!(
        client.sim.produced,
        vec![(0, 0, 2), (0, 2, 2), (0, 4, 2), (0, 6, 2)],
        "the log must read in order with no gap and no duplicate"
    );
    assert!(
        !matches!(client.producer.state(), TxnState::Fatal),
        "an out-of-sequence answer caused by an earlier failure must not fence"
    );
}

/// A sequence error with **nothing failed before it** is still fatal.
#[test]
fn an_unexplained_sequence_error_still_fences() {
    let mut client = Client::open(faulty(Api::Produce, 45, 1, 0));
    client.producer.begin_transaction().expect("begin");
    client.enqueue("t", 0, &records(1)).expect("enqueue");
    let err = client.flush().expect_err("must not be tolerated");
    assert!(
        matches!(err, Error::Broker { disposition: Disposition::Fatal, .. }),
        "expected a fatal sequence error, got: {err:?}"
    );
    assert!(matches!(client.producer.state(), TxnState::Fatal));
}

/// Only the contiguous leading run of successes is retired.
#[test]
fn a_success_after_a_failure_is_not_retired() {
    let mut client = Client::open(faulty(Api::Produce, 6, 1, 1));
    client.producer.begin_transaction().expect("begin");
    for _ in 0..4 {
        client.enqueue("t", 0, &records(2)).expect("enqueue");
    }
    let written = client.flush().expect("flush");

    assert_eq!(written.len(), 4, "every batch must land exactly once");
    assert_eq!(
        client.sim.produced,
        vec![(0, 0, 2), (0, 2, 2), (0, 4, 2), (0, 6, 2)],
        "the log must read in order with no gap and no duplicate"
    );
}

/// A call on a busy connection would read another request's answer, so it is refused.
#[test]
fn a_call_on_a_busy_connection_is_refused() {
    let mut connection = Connection::new();
    assert!(check_idle(BROKER, connection.in_flight()).is_ok());
    // Leave a request outstanding, as a consumer that fetches ahead does.
    let _ = connection.request(3, 12);
    let err = check_idle(BROKER, connection.in_flight())
        .expect_err("a busy connection must refuse");
    assert!(
        matches!(err, Error::ConnectionBusy { in_flight: 1, .. }),
        "expected ConnectionBusy, got: {err:?}"
    );
}

/// However many batches are queued behind one partition, a flush sends them all: a window
/// that went well costs no attempt and no wait.
#[test]
fn a_long_queue_is_flushed_to_its_end() {
    let mut client = Client::open(Sim::default());
    client.producer.set_max_in_flight(1);
    client.producer.begin_transaction().expect("begin");
    for _ in 0..41 {
        client.enqueue("t", 0, &records(1)).expect("enqueue");
    }
    assert_eq!(client.producer.queued(), 41);
    let written = client.flush().expect("flush");
    assert_eq!(written.len(), 41);
    for (i, entry) in written.iter().enumerate() {
        assert_eq!(*entry, ("t".to_owned(), 0, i as i64));
    }
    assert_eq!(client.producer.queued(), 0);
    assert!(client.waits.iter().all(|wait_ms| *wait_ms == 0));
}

/// A window with a failure in it costs an attempt and a wait.
#[test]
fn a_failed_window_is_waited_out() {
    let mut client = Client::open(faulty(Api::Produce, 6, 1, 0));
    client.producer.begin_transaction().expect("begin");
    client.enqueue("t", 0, &records(1)).expect("enqueue");
    client.flush().expect("flush");
    assert_eq!(client.waits.len(), 1);
    assert!(client.waits[0] > 0);
}

/// What was queued before goes out too, and the offset that comes back is that of the batch
/// just sent.
#[test]
fn a_send_returns_its_own_offset() {
    let mut client = Client::open(Sim {
        next_offset: BTreeMap::from([(1, 2)]),
        ..Sim::default()
    });
    client.producer.begin_transaction().expect("begin");
    client.enqueue("t", 0, &records(2)).expect("enqueue");
    assert_eq!(client.send("t", 1, &records(1)).expect("send"), 2);
    assert_eq!(client.producer.queued(), 0);
    assert_eq!(client.send("t", 0, &records(1)).expect("send"), 2);
    assert_eq!(client.send("t", 0, &records(1)).expect("send"), 3);
}
