use barnabas::assignor::RangeAssignor;
use barnabas::batch::CompressionCodec;
use barnabas::client::{Disposition, Error};
use barnabas::group::TopicPartition;
use barnabas::membership::{ClassicProtocol, MemberState};
use barnabas::partitioner::Partitioner;
use barnabas::producer::{ProducerError, ProducerIdentity, TxnState};
use barnabas::records::decode_lean;
use barnabas::retry::Verdict;
use barnabas::sender::{
    first_offset, offsets_by_partition, on_partition_count, CountStep, Flush, Producer,
    ProducerRecord, Routed, Target,
};
use barnabas::slots::SlotMap;
use bytes::Bytes;

/// A transactional request carries the transactional id, a record no sequencing of its
/// own.
#[test]
fn a_record_carries_no_sequencing_of_its_own() {
    let r = ProducerRecord::new(None, Some(Bytes::from_static(b"v")));
    assert!(r.timestamp.is_none());
}

/// Records have no sequence field, so there is no way for a caller to supply one.
#[test]
fn producer_records_have_no_sequence_field() {
    let r = ProducerRecord::new(Some(Bytes::from_static(b"k")), None);
    assert_eq!(r.key.as_deref(), Some(&b"k"[..]));
}

fn idempotent() -> Producer {
    let mut producer = Producer::idempotent();
    producer.on_init_producer_id(ProducerIdentity { id: 9, epoch: 2 });
    producer
}

fn value(text: &'static str) -> ProducerRecord {
    ProducerRecord::new(None, Some(Bytes::from_static(text.as_bytes())))
}

fn first_request(producer: &Producer) -> Bytes {
    let keys = producer.pending_keys();
    let request = producer.produce_request(&keys, 0);
    request.topics[0].1[0].records.clone()
}

/// What a producer queues, a consumer reads back, with every codec.
#[test]
fn a_queued_batch_reads_back() {
    for codec in [
        CompressionCodec::Uncompressed,
        CompressionCodec::Gzip,
        CompressionCodec::Snappy,
        CompressionCodec::Lz4,
        CompressionCodec::Zstd,
    ] {
        let mut producer = idempotent();
        producer.set_compression(codec);
        let mut stamped = ProducerRecord::new(
            Some(Bytes::from_static(b"key")),
            Some(Bytes::from_static(b"value")),
        );
        stamped.timestamp = Some(1_234);
        producer
            .enqueue("t", 3, &[value("a"), stamped], 1_000)
            .expect("enqueue");
        let bytes = first_request(&producer);
        let batches = decode_lean(&bytes).expect("decode").expect("handled");
        assert_eq!(batches.len(), 1, "{codec:?}");
        let batch = &batches[0];
        assert_eq!(batch.producer_id, 9);
        assert!(!batch.transactional && !batch.control);
        assert_eq!(batch.records.len(), 2);
        assert_eq!(batch.records[0].timestamp, 1_000);
        assert_eq!(batch.records[1].timestamp, 1_234);
        assert_eq!(batch.key(&batch.records[0]), None);
        assert_eq!(batch.key(&batch.records[1]), Some(Bytes::from_static(b"key")));
        assert_eq!(batch.value(&batch.records[1]), Some(Bytes::from_static(b"value")));
    }
}

/// Consecutive batches take consecutive sequences.
#[test]
fn queued_batches_carry_contiguous_sequences() {
    let mut producer = idempotent();
    producer.enqueue("t", 0, &[value("a"), value("b")], 0).expect("enqueue");
    producer.enqueue("t", 0, &[value("c")], 0).expect("enqueue");
    let keys = producer.pending_keys();
    let bases: Vec<i32> = (0..2)
        .map(|round| {
            let request = producer.produce_request(&keys, round);
            let bytes = request.topics[0].1[0].records.clone();
            i32::from_be_bytes([bytes[53], bytes[54], bytes[55], bytes[56]])
        })
        .collect();
    assert_eq!(bases, vec![0, 2]);
    assert_eq!(producer.queued(), 2);
}

#[test]
fn timestamps_too_far_apart_are_refused() {
    let mut producer = idempotent();
    let mut late = value("b");
    late.timestamp = Some(i64::from(i32::MAX) + 2);
    let err = producer.enqueue("t", 0, &[value("a"), late], 0);
    assert!(matches!(err, Err(Error::Core(_))), "{err:?}");
}

#[test]
fn an_uninitialised_producer_sends_nothing() {
    let mut producer = Producer::idempotent();
    assert!(matches!(
        producer.enqueue("t", 0, &[value("a")], 0),
        Err(Error::Producer(ProducerError::Uninitialised))
    ));
    assert!(producer.is_idle());
    assert!(matches!(producer.coordinator(), Target::Any));
    assert!(producer.enqueue("t", 0, &[], 0).is_ok());
}

#[test]
fn staged_records_become_due_when_full_or_overdue() {
    let mut producer = idempotent();
    producer.set_linger(100);
    producer.set_batch_size(40);
    producer.produce_to("t", 0, value("a"), 1_000);
    assert!(producer.ready(1_050).is_empty());
    assert_eq!(producer.linger_deadline(), Some(1_100));
    assert_eq!(producer.ready(1_100), vec![TopicPartition::new("t", 0)]);
    assert_eq!(producer.queued(), 1);

    // Sixteen bytes of overhead and the value, three times, is more than forty.
    producer.produce_to("t", 1, value("a"), 1_000);
    producer.produce_to("t", 1, value("b"), 1_001);
    assert!(producer.ready(1_002).is_empty());
    producer.produce_to("t", 1, value("c"), 1_002);
    assert_eq!(producer.ready(1_002), vec![TopicPartition::new("t", 1)]);
    assert_eq!(
        producer.staged_keys(),
        vec![TopicPartition::new("t", 0), TopicPartition::new("t", 1)]
    );
    let taken = producer.take_staged("t", 1).expect("staged");
    assert_eq!(taken.len(), 3);
    assert!(producer.take_staged("t", 1).is_none());
}

#[test]
fn a_window_goes_to_each_partitions_leader() {
    let mut producer = idempotent();
    for (partition, n) in [(0, 2), (1, 1), (2, 1)] {
        for _ in 0..n {
            producer.enqueue("t", partition, &[value("a")], 0).expect("enqueue");
        }
    }
    let mut flush = Flush::new();
    let leaders = vec![Some("b:1".to_owned()), Some("a:1".to_owned()), None];
    match producer.route(&mut flush, leaders) {
        Routed::Window { by_broker, depth } => {
            assert_eq!(depth, 2);
            assert_eq!(
                by_broker,
                vec![
                    ("a:1".to_owned(), vec![TopicPartition::new("t", 1)]),
                    ("b:1".to_owned(), vec![TopicPartition::new("t", 0)]),
                ]
            );
            assert_eq!(producer.round(&by_broker, 0).len(), 2);
            assert_eq!(
                producer.round(&by_broker, 1),
                vec![("b:1".to_owned(), vec![TopicPartition::new("t", 0)])]
            );
        }
        other => panic!("unexpected {other:?}"),
    }
}

#[test]
fn no_leader_at_all_is_waited_out_and_then_reported() {
    let mut producer = idempotent();
    producer.enqueue("t", 4, &[value("a")], 0).expect("enqueue");
    let mut flush = Flush::new();
    let mut waits = 0;
    loop {
        match producer.route(&mut flush, vec![None]) {
            Routed::Wait { .. } => waits += 1,
            Routed::Failed(Error::NoLeader { topic, partition }) => {
                assert_eq!((topic.as_str(), partition), ("t", 4));
                break;
            }
            other => panic!("unexpected {other:?}"),
        }
    }
    assert_eq!(waits, 39);
}

#[test]
fn partition_counts_are_waited_for() {
    assert!(matches!(on_partition_count("t", 0, Some(3)), CountStep::Known(3)));
    assert!(matches!(on_partition_count("t", 0, Some(0)), CountStep::Wait { .. }));
    assert!(matches!(on_partition_count("t", 38, None), CountStep::Wait { .. }));
    assert!(matches!(
        on_partition_count("t", 39, None),
        CountStep::Failed(Error::NoLeader { partition: -1, .. })
    ));
}

#[test]
fn records_are_placed_by_their_keys() {
    let mut producer = idempotent();
    producer.set_partitioner(Partitioner::Crc32);
    let keyed = |k: &'static str| {
        ProducerRecord::new(Some(Bytes::from_static(k.as_bytes())), Some(Bytes::from_static(b"v")))
    };
    let batches = producer
        .place("t", &[keyed("a"), value("x"), keyed("a"), value("y")], 5)
        .expect("place");
    let total: usize = batches.iter().map(|(_, list)| list.len()).sum();
    assert_eq!(total, 4);
    let expected = producer.partition_for("t", Some(b"a"), 5).expect("partition");
    let home = batches
        .iter()
        .find(|(tp, _)| tp.partition == expected)
        .expect("the key's partition");
    assert!(home.1.iter().filter(|r| r.key.is_some()).count() == 2);
    assert!(matches!(
        producer.place("t", &[value("x")], 0),
        Err(Error::NoLeader { partition: -1, .. })
    ));
    assert!(producer.partition_for("t", None, -1).is_err());
}

#[test]
fn offsets_join_the_open_transaction() {
    let mut producer = Producer::transactional("txn");
    producer.on_init_producer_id(ProducerIdentity { id: 3, epoch: 1 });
    let member = MemberState {
        member_id: "m".to_owned(),
        generation: 5,
        stable: true,
        can_commit: true,
        assignment: Vec::new(),
        lost: Vec::new(),
    };
    let metadata = ClassicProtocol::new("g", vec!["t".to_owned()], RangeAssignor)
        .group_metadata(&member)
        .expect("a current member");
    let mut offsets = SlotMap::new();
    assert!(matches!(
        producer.send_offsets_to_transaction(&offsets, &metadata),
        Err(Error::Producer(ProducerError::NoTransaction))
    ));
    producer.begin_transaction().expect("begin");
    assert!(matches!(
        producer.send_offsets_to_transaction(&offsets, &metadata),
        Ok(None)
    ));
    offsets.insert("t", 0, 42);
    let (add, commit) = producer
        .send_offsets_to_transaction(&offsets, &metadata)
        .expect("requests")
        .expect("some");
    assert_eq!(add.group_id, "g");
    assert_eq!((add.producer_id, add.producer_epoch), (3, 1));
    assert_eq!((commit.generation_id, commit.member_id.as_str()), (5, "m"));
    assert_eq!(commit.topics[0].0, "t");
    let end = producer.abort_transaction().expect("abort");
    assert!(!end.committed);
    producer.on_end_transaction();
    assert_eq!(producer.state(), TxnState::Ready);
}

#[test]
fn a_fatal_answer_from_a_coordinator_fences() {
    let mut producer = Producer::transactional("txn");
    producer.on_init_producer_id(ProducerIdentity { id: 3, epoch: 1 });
    producer.on_group_answer(25, Disposition::RefreshMetadata);
    assert_eq!(producer.state(), TxnState::Ready);
    match producer.on_coordinator_answer(0, "EndTxn", 90, Disposition::Fatal) {
        Verdict::Fail { op, code, .. } => assert_eq!((op, code), ("EndTxn", 90)),
        other => panic!("unexpected {other:?}"),
    }
    assert_eq!(producer.state(), TxnState::Fatal);
}

#[test]
fn what_was_written_is_reported_by_partition() {
    let written = vec![("t".to_owned(), 0, 7), ("t".to_owned(), 2, 9)];
    assert_eq!(first_offset(&written, "t", 0), 7);
    assert_eq!(first_offset(&written, "t", 2), 9);
    assert_eq!(first_offset(&written, "t", 1), -1);
    assert_eq!(first_offset(&written, "u", 0), -1);
    assert_eq!(first_offset(&vec![], "t", 0), -1);
    assert_eq!(offsets_by_partition(&written, "t", &[0, 2]), vec![(0, 7), (2, 9)]);

    // Batches of other topics, and earlier ones of the same partition, are not what was
    // asked about.
    let more = vec![
        ("s".to_owned(), 0, 1),
        ("t".to_owned(), 0, 0),
        ("t".to_owned(), 0, 7),
        ("t".to_owned(), 1, 2),
    ];
    assert_eq!(first_offset(&more, "t", 0), 7);
    assert_eq!(first_offset(&more, "t", 1), 2);
    assert_eq!(offsets_by_partition(&more, "t", &[0, 1]), vec![(0, 7), (1, 2)]);
}

/// The linger counts from the first record, however many follow.
#[test]
fn a_steady_stream_is_still_sent() {
    let mut producer = idempotent();
    producer.set_linger(10);
    for now in 5..15 {
        assert!(producer.ready(now).is_empty(), "at {now}");
        producer.produce_to("t", 0, value("v"), now);
    }
    assert_eq!(producer.linger_deadline(), Some(15));
    assert_eq!(producer.ready(15), vec![TopicPartition::new("t", 0)]);
}

/// Records without a key go round the partitions, also when they are produced one at a
/// time; asking where one would go moves nothing.
#[test]
fn records_without_a_key_take_turns() {
    let mut producer = idempotent();
    producer.set_linger(30_000_000_000);
    let mut chosen = Vec::new();
    for _ in 0..4 {
        let next = producer.partition_for("t", None, 4).expect("partition");
        assert_eq!(producer.partition_for("t", None, 4).expect("partition"), next);
        let partition = producer.pick("t", None, 4).expect("partition");
        assert_eq!(partition, next);
        chosen.push(partition);
        producer.produce_to("t", partition, value("v"), 0);
        assert!(producer.ready(0).is_empty());
    }
    assert_eq!(chosen, vec![0, 1, 2, 3]);
    assert_eq!(producer.queued(), 4);

    // A key costs nobody a turn.
    let keyed = producer.pick("t", Some(b"k"), 4).expect("partition");
    assert_eq!(keyed, producer.partition_for("t", Some(b"k"), 4).expect("partition"));
    assert_eq!(producer.pick("t", None, 4).expect("partition"), 0);
    assert!(matches!(
        producer.pick("t", None, 0),
        Err(Error::NoLeader { partition: -1, .. })
    ));
    assert_eq!(producer.pick("t", None, 4).expect("partition"), 1);
}

/// What is staged for a partition counts as the batch that it becomes.
#[test]
fn staged_records_become_one_batch() {
    let mut producer = idempotent();
    producer.set_linger(30_000_000_000);
    producer.produce_to("t", 0, value("a"), 0);
    producer.produce_to("t", 0, value("b"), 0);
    producer.produce_to("t", 1, value("c"), 0);
    assert_eq!(producer.queued(), 2);
    let staged = producer.take_staged("t", 0).expect("staged");
    assert_eq!(staged.len(), 2);
    producer.enqueue("t", 0, &staged, 5).expect("enqueue");
    assert_eq!(producer.queued(), 2);
}
