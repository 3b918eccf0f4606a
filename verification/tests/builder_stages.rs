//! Each stage offers what is valid there and nothing else.

use barnabas::batch::CompressionCodec;
use barnabas::builder::{every_partition, StartOffset};
use barnabas::consumer::IsolationLevel;
use barnabas::fetching::{Consumer, EARLIEST, LATEST};
use barnabas::group::TopicPartition;
use barnabas::partitioner::Partitioner;
use barnabas::sasl::Credentials;
use barnabas::sender::Producer;

/// A transport that never connects.
struct Nothing;

/// Each stage returns the next one, and the optional settings appear only at the last.
#[test]
fn the_stages_chain_in_order() {
    let ready = Consumer::builder(Nothing)
        .bootstrap(vec!["localhost:9092".to_owned()])
        .client_id("my-app")
        .assign("events", 0, StartOffset::Earliest)
        .max_wait(50);
    let _ = ready;

    let ready = Producer::builder(Nothing)
        .bootstrap(vec!["localhost:9092".to_owned()])
        .client_id("my-app")
        .transactional_id("sink-0")
        .max_in_flight(3);
    let _ = ready;
}

/// A stored offset cannot be confused with the sentinels.
#[test]
fn a_stored_offset_is_not_a_sentinel() {
    assert_ne!(StartOffset::At(0), StartOffset::Earliest);
    assert_ne!(StartOffset::At(-1), StartOffset::Latest);
}

/// What must *not* compile:
///
/// - `Consumer::builder(Nothing).client_id("my-app")`: no list of brokers;
/// - `Consumer::builder(Nothing).bootstrap(..).build()`: no client id;
/// - `Consumer::builder(Nothing).max_wait(1_000)`: not offered before the required steps.
#[test]
fn required_steps_cannot_be_skipped() {}

#[test]
fn starts_become_the_protocols_numbers() {
    assert_eq!(StartOffset::Earliest.as_i64(), EARLIEST);
    assert_eq!(StartOffset::Latest.as_i64(), LATEST);
    assert_eq!(StartOffset::At(17).as_i64(), 17);
    assert_eq!((EARLIEST, LATEST), (-2, -1));
}

#[test]
fn a_built_consumer_has_its_settings_and_its_assignments() {
    let built = Consumer::builder("transport")
        .bootstrap(vec!["a:1".to_owned(), "b:2".to_owned()])
        .client_id("my-app")
        .isolation(IsolationLevel::ReadUncommitted)
        .credentials(Credentials::plain("user", "secret"))
        .assign("events", 3, StartOffset::At(7))
        .assign_range("logs", &[0, 1], StartOffset::Latest)
        .assign_all("all", StartOffset::Earliest)
        .max_wait(50)
        .prefetch(false)
        .incremental_fetch(false)
        .build();
    assert_eq!(built.transport, "transport");
    assert_eq!(built.bootstrap, vec!["a:1".to_owned(), "b:2".to_owned()]);
    assert_eq!(built.client_id, "my-app");
    assert_eq!(built.credentials.map(|c| c.username), Some("user".to_owned()));
    assert_eq!(built.every_partition, vec![("all".to_owned(), EARLIEST)]);
    assert_eq!(
        built.assignments,
        vec![
            (TopicPartition::new("events", 3), 7),
            (TopicPartition::new("logs", 0), LATEST),
            (TopicPartition::new("logs", 1), LATEST),
        ]
    );
    assert!(!built.consumer.wants_prefetch());
}

#[test]
fn every_partition_is_expanded_in_order() {
    assert_eq!(
        every_partition("t", 2, EARLIEST),
        vec![
            (TopicPartition::new("t", 0), EARLIEST),
            (TopicPartition::new("t", 1), EARLIEST),
        ]
    );
    assert!(every_partition("t", 0, EARLIEST).is_empty());
    assert!(every_partition("t", -1, EARLIEST).is_empty());
}

#[test]
fn a_built_producer_is_idempotent_unless_it_is_transactional() {
    let built = Producer::builder(Nothing)
        .bootstrap(vec!["a:1".to_owned()])
        .client_id("my-app")
        .compression(CompressionCodec::Gzip)
        .partitioner(Partitioner::Murmur2)
        .build();
    assert_eq!(built.client_id, "my-app");
    assert!(built.producer.identity().is_none());
    // murmur2 puts this key elsewhere than CRC-32 does.
    let murmur = built.producer.partition_for("t", Some(b"key-1"), 16).unwrap();
    let crc = Producer::idempotent()
        .partition_for("t", Some(b"key-1"), 16)
        .unwrap();
    assert_ne!(murmur, crc);
}
