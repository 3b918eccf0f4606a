use barnabas::batch::CompressionCodec;
use barnabas::client::{Disposition, Error};
use barnabas::consumer::IsolationLevel;
use barnabas::fetching::{
    tolerates, Advance, BrokerReply, Consumer, FetchAnswer, PartitionFetch, Polled, EARLIEST,
    LATEST,
};
use barnabas::group::TopicPartition;
use barnabas::producer::ProducerIdentity;
use barnabas::sender::{Producer, ProducerRecord};
use barnabas::slots::SlotMap;
use bytes::{Bytes, BytesMut};

fn tp(partition: i32) -> TopicPartition {
    TopicPartition::new("t", partition)
}

/// One batch of values, as a producer writes it.
fn wire(values: &[&'static str]) -> Bytes {
    let mut producer = Producer::idempotent();
    producer.on_init_producer_id(ProducerIdentity { id: 1, epoch: 0 });
    producer.set_compression(CompressionCodec::Uncompressed);
    let records: Vec<ProducerRecord> = values
        .iter()
        .map(|v| ProducerRecord::new(None, Some(Bytes::from_static(v.as_bytes()))))
        .collect();
    producer.enqueue("t", 0, &records, 5).expect("enqueue");
    let keys = producer.pending_keys();
    let request = producer.produce_request(&keys, 0);
    request.topics[0].1[0].records.clone()
}

fn arrived(partition: i32, records: Bytes) -> PartitionFetch {
    PartitionFetch {
        slot: tp(partition),
        code: 0,
        disposition: Disposition::Success,
        last_stable_offset: 100,
        aborted: Vec::new(),
        records: Some(records),
    }
}

fn answer(session_id: i32, parts: Vec<PartitionFetch>) -> FetchAnswer {
    FetchAnswer {
        code: 0,
        disposition: Disposition::Success,
        session_id,
        parts,
    }
}

fn reading(partitions: &[i32]) -> Consumer {
    let mut consumer = Consumer::new(IsolationLevel::ReadCommitted);
    for partition in partitions {
        assert!(!consumer.assign("t", *partition, 0));
    }
    consumer
}

#[test]
fn a_sentinel_must_be_looked_up() {
    let mut consumer = Consumer::new(IsolationLevel::ReadCommitted);
    assert!(consumer.assign("t", 0, EARLIEST));
    assert!(consumer.assign("t", 1, LATEST));
    assert!(!consumer.assign("t", 2, 7));
    consumer.resolve("t", 0, 3);
    assert_eq!(consumer.position_of("t", 0), Some(3));
    assert_eq!(consumer.position_of("t", 9), None);
    assert_eq!(consumer.assignments(), vec![tp(0), tp(1), tp(2)]);
}

#[test]
fn a_full_fetch_names_every_partition() {
    let consumer = reading(&[0, 1]);
    let request = consumer.fetch_request("a:1", &vec![tp(0), tp(1)]);
    assert_eq!((request.session_id, request.session_epoch), (0, 0));
    assert_eq!(request.replica_id, -1);
    assert_eq!(request.isolation_level, 1);
    assert_eq!(request.max_wait_ms, 500);
    assert_eq!(request.topics.len(), 1);
    assert_eq!(request.topics[0].0, "t");
    assert_eq!(request.topics[0].1.len(), 2);
    assert_eq!(request.topics[0].1[0].fetch_offset, 0);
    assert_eq!(request.topics[0].1[0].max_bytes, 10_485_760);
    assert_eq!(request.max_bytes, 67_108_864);
}

/// Once a session is agreed on, a partition that did not move is not named again.
#[test]
fn an_incremental_fetch_names_what_moved() {
    let mut consumer = reading(&[0, 1]);
    let asked = vec![tp(0), tp(1)];
    let got = consumer
        .on_fetch("a:1", &asked, &answer(77, vec![arrived(0, wire(&["x", "y"]))]))
        .expect("fetch");
    assert_eq!(got.len(), 1);
    assert_eq!(got[0].len(), 2);
    assert_eq!(consumer.position_of("t", 0), Some(2));
    assert_eq!(consumer.position_of("t", 1), Some(0));

    let request = consumer.fetch_request("a:1", &asked);
    assert_eq!((request.session_id, request.session_epoch), (77, 1));
    assert_eq!(request.topics.len(), 1);
    let named: Vec<(i32, i64)> = request.topics[0]
        .1
        .iter()
        .map(|e| (e.partition, e.fetch_offset))
        .collect();
    assert_eq!(named, vec![(0, 2)]);

    // Another broker has no session.
    let other = consumer.fetch_request("b:1", &asked);
    assert_eq!(other.session_epoch, 0);
    assert_eq!(other.topics[0].1.len(), 2);
}

#[test]
fn a_forgotten_session_starts_over() {
    let mut consumer = reading(&[0]);
    let asked = vec![tp(0)];
    consumer.on_fetch("a:1", &asked, &answer(77, Vec::new())).expect("fetch");
    assert_eq!(consumer.fetch_request("a:1", &asked).session_id, 77);
    let lost = FetchAnswer {
        code: 70,
        disposition: Disposition::Retry,
        session_id: 0,
        parts: Vec::new(),
    };
    let _ = consumer.on_fetch("a:1", &asked, &lost);
    let request = consumer.fetch_request("a:1", &asked);
    assert_eq!((request.session_id, request.session_epoch), (0, 0));
}

#[test]
fn without_sessions_every_fetch_is_full() {
    let mut consumer = reading(&[0]);
    consumer.set_incremental_fetch(false);
    let request = consumer.fetch_request("a:1", &vec![tp(0)]);
    assert_eq!((request.session_id, request.session_epoch), (0, -1));
}

#[test]
fn a_partitions_error_fails_the_fetch() {
    let mut consumer = reading(&[0]);
    let mut part = arrived(0, wire(&["x"]));
    part.code = 1;
    part.disposition = Disposition::Fatal;
    match consumer.on_fetch("a:1", &vec![tp(0)], &answer(0, vec![part])) {
        Err(Error::Broker { op, code, .. }) => assert_eq!((op, code), ("Fetch partition", 1)),
        other => panic!("unexpected {other:?}"),
    }
}

#[test]
fn records_are_read_from_what_arrived() {
    let mut consumer = reading(&[0]);
    let mut bytes = BytesMut::from(&wire(&["x", "y"])[..]);
    bytes.extend_from_slice(&wire(&["z"])[..20]);
    let list = consumer
        .take(&arrived(0, bytes.freeze()))
        .expect("take")
        .expect("records");
    assert!(!list.is_empty());
    assert_eq!(list.len(), 2);
    let seen = list.iter();
    assert_eq!(seen[1].offset(), 1);
    assert_eq!(seen[1].timestamp(), 5);
    assert_eq!(seen[1].key(), None);
    assert_eq!(seen[1].value(), Some(Bytes::from_static(b"y")));
    assert!(seen[1].headers().expect("headers").is_empty());
}

/// A batch of an older format is read by the general decoder, or refused by it.
#[test]
fn what_the_lean_reader_hands_back_is_read_the_general_way() {
    let mut consumer = reading(&[0]);
    let mut old = BytesMut::from(&wire(&["x"])[..]);
    old[16] = 9;
    assert!(matches!(
        consumer.take(&arrived(0, old.freeze())),
        Err(Error::Core(_))
    ));
}

#[test]
fn pausing_keeps_the_position() {
    let mut consumer = reading(&[0, 1]);
    consumer.seek_to("t", 0, 9);
    consumer.pause(&vec![tp(0)]);
    assert_eq!(consumer.fetchable(), vec![tp(1)]);
    assert_eq!(consumer.paused(), vec![tp(0)]);
    assert!(consumer.is_paused("t", 0));
    assert_eq!(consumer.position_of("t", 0), Some(9));
    consumer.resume(&vec![tp(0)]);
    assert_eq!(consumer.fetchable(), vec![tp(0), tp(1)]);
    assert_eq!(consumer.position_of("t", 0), Some(9));
}

#[test]
fn fetches_are_grouped_by_leader() {
    let consumer = reading(&[0, 1, 2]);
    let groups = consumer.by_broker(vec!["b:1".to_owned(), "a:1".to_owned(), "b:1".to_owned()]);
    assert_eq!(
        groups,
        vec![
            ("a:1".to_owned(), vec![tp(1)]),
            ("b:1".to_owned(), vec![tp(0), tp(2)]),
        ]
    );
}

/// A fetch in flight belongs to the positions it was sent for.
#[test]
fn a_seek_makes_the_fetch_in_flight_stale() {
    let mut consumer = reading(&[0]);
    assert!(consumer.wants_prefetch());
    assert!(!consumer.is_fetching());
    let groups = consumer.by_broker(vec!["a:1".to_owned()]);
    consumer.on_sent(groups);
    assert!(consumer.is_fetching());
    assert!(!consumer.is_stale());
    consumer.seek(40);
    assert_eq!(consumer.position(), 40);
    assert!(consumer.is_stale());
    assert_eq!(consumer.discard().len(), 1);
    assert!(!consumer.is_fetching());
    let groups = consumer.by_broker(vec!["a:1".to_owned()]);
    consumer.on_sent(groups);
    assert_eq!(consumer.collect(), vec![("a:1".to_owned(), vec![tp(0)])]);
}

#[test]
fn the_longest_wait_is_what_the_protocol_can_say() {
    let mut consumer = reading(&[0]);
    consumer.set_max_wait(u64::MAX);
    assert_eq!(consumer.fetch_request("a:1", &vec![tp(0)]).max_wait_ms, i32::MAX);
    consumer.set_max_wait(25);
    assert_eq!(consumer.fetch_request("a:1", &vec![tp(0)]).max_wait_ms, 25);
}

#[test]
fn auto_commit_comes_due_with_its_interval() {
    let mut consumer = reading(&[0]);
    assert!(!consumer.auto_commit_due(1_000));
    consumer.set_auto_commit(Some(100));
    assert!(consumer.auto_commit_due(1_000));
    consumer.on_auto_commit(1_000);
    assert!(!consumer.auto_commit_due(1_099));
    assert!(consumer.auto_commit_due(1_100));
}

#[test]
fn an_assignment_starts_where_the_group_left_off() {
    let mut consumer = Consumer::new(IsolationLevel::ReadCommitted);
    consumer.subscribe(LATEST);
    let mut committed = SlotMap::new();
    committed.insert("t", 0, 12);
    let partitions = vec![tp(0), tp(1)];
    assert!(!consumer.holds(&partitions));
    consumer.take_assignment(&partitions, &committed);
    assert!(consumer.holds(&partitions));
    assert_eq!(consumer.position_of("t", 0), Some(12));
    let lookups = consumer.on_settled(true);
    assert_eq!(lookups, vec![(tp(1), LATEST)]);
    consumer.on_revoked(&vec![tp(0)]);
    assert_eq!(consumer.assignments(), vec![tp(1)]);
    consumer.unsubscribe();
    assert!(consumer.assignments().is_empty());
}

#[test]
fn advancing_stops_when_membership_settles() {
    let mut advance = Advance::new();
    assert!(advance.on_step(false, false));
    assert!(!advance.on_step(true, true));
    assert!(advance.changed);
    let mut slow = Advance::new();
    let mut steps = 1;
    while slow.on_step(false, false) {
        steps += 1;
    }
    assert_eq!(steps, 20);
}

#[test]
fn some_commit_failures_are_tolerated() {
    assert!(!tolerates(&Error::Missing("x")));
    assert!(tolerates(&Error::Broker {
        op: "OffsetCommit",
        code: 27,
        disposition: Disposition::Retry,
    }));
}

#[test]
fn removing_a_partition_forgets_it() {
    let mut consumer = reading(&[0, 1]);
    consumer.remove("t", 0);
    assert_eq!(consumer.assignments(), vec![tp(1)]);
    assert_eq!(consumer.positions().len(), 1);
}

#[test]
fn a_pause_ends_with_the_loss_of_the_partition() {
    let mut consumer = reading(&[0, 1]);
    consumer.pause(&vec![tp(0), tp(1)]);
    consumer.on_revoked(&vec![tp(0)]);
    assert!(!consumer.is_paused("t", 0));
    assert!(consumer.is_paused("t", 1));
    assert_eq!(consumer.assignments(), vec![tp(1)]);
}

#[test]
fn a_changed_setting_voids_the_fetch_in_flight() {
    let changes: Vec<fn(&mut Consumer)> = vec![
        |c| c.seek_to("t", 0, 9),
        |c| c.remove("t", 1),
        |c| c.pause(&vec![tp(1)]),
        |c| c.resume(&vec![tp(1)]),
        |c| c.set_max_wait(7),
        |c| c.set_prefetch(false),
        |c| c.set_incremental_fetch(false),
        |c| c.unsubscribe(),
    ];
    for change in changes {
        let mut consumer = reading(&[0, 1]);
        consumer.on_sent(vec![("h:1".to_owned(), vec![tp(0), tp(1)])]);
        assert!(!consumer.is_stale());
        change(&mut consumer);
        assert!(consumer.is_stale());
    }
}

fn reply(addr: &str, partition: i32, answer: Option<FetchAnswer>) -> BrokerReply {
    BrokerReply {
        addr: addr.to_owned(),
        partitions: vec![tp(partition)],
        answer,
    }
}

/// One batch of five records that begins at offset 5.
fn five() -> Bytes {
    let mut bytes = BytesMut::from(&wire(&["a", "b", "c", "d", "e"])[..]);
    bytes[..8].copy_from_slice(&5_i64.to_be_bytes());
    bytes.freeze()
}

fn two_brokers() -> Consumer {
    let mut consumer = Consumer::new(IsolationLevel::ReadCommitted);
    consumer.assign("t", 0, 5);
    consumer.assign("t", 1, 7);
    consumer
}

/// A poll that fails has handed out nothing, so no position has moved: neither where a
/// broker's answer is missing nor where it is a failure.
#[test]
fn a_failed_poll_moves_no_position() {
    let failed = |partition: i32| {
        let mut part = arrived(partition, five());
        part.code = 6;
        part.disposition = Disposition::RefreshMetadata;
        part
    };

    let mut consumer = two_brokers();
    let first = || reply("a:1", 0, Some(answer(77, vec![arrived(0, five())])));
    match consumer.on_poll(&vec![first(), reply("b:1", 1, None)]) {
        Polled::Unread(i) => assert_eq!(i, 1),
        other => panic!("unexpected {other:?}"),
    }
    assert_eq!(consumer.position_of("t", 0), Some(5));
    assert_eq!(consumer.position_of("t", 1), Some(7));
    assert_eq!(consumer.fetch_request("a:1", &vec![tp(0)]).session_epoch, 0);

    let broken = reply("b:1", 1, Some(answer(78, vec![failed(1)])));
    match consumer.on_poll(&vec![first(), broken]) {
        Polled::Failed(Error::Broker { code, .. }) => assert_eq!(code, 6),
        other => panic!("unexpected {other:?}"),
    }
    assert_eq!(consumer.position_of("t", 0), Some(5));

    let empty = reply("b:1", 1, Some(answer(78, Vec::new())));
    match consumer.on_poll(&vec![first(), empty]) {
        Polled::Records(list) => {
            assert_eq!(list.len(), 1);
            let offsets: Vec<i64> = list[0].iter().iter().map(|r| r.offset()).collect();
            assert_eq!(offsets, vec![5, 6, 7, 8, 9]);
        }
        other => panic!("unexpected {other:?}"),
    }
    assert_eq!(consumer.position_of("t", 0), Some(10));
    assert_eq!(consumer.position_of("t", 1), Some(7));
    assert_eq!(consumer.fetch_request("a:1", &vec![tp(0)]).session_id, 77);

    // Of one broker's partitions, a later one that fails takes the earlier ones with it.
    let mut consumer = two_brokers();
    let both = answer(77, vec![arrived(0, five()), failed(1)]);
    assert!(consumer.on_fetch("a:1", &vec![tp(0), tp(1)], &both).is_err());
    assert_eq!(consumer.position_of("t", 0), Some(5));
}

/// What is not stable yet is fetched again, and not skipped.
#[test]
fn a_position_does_not_pass_the_last_stable_offset() {
    let mut consumer = two_brokers();
    let mut part = arrived(0, five());
    part.last_stable_offset = 7;
    let got = consumer
        .on_fetch("a:1", &vec![tp(0)], &answer(77, vec![part]))
        .expect("fetch");
    assert_eq!(got[0].len(), 2);
    assert_eq!(consumer.position_of("t", 0), Some(7));
}
