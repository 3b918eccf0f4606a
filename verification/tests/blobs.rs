use barnabas::blobs::{
    decode_assignment, decode_subscription, encode_assignment, encode_subscription, read_version,
    topics_of,
};
use barnabas::group::{Subscription, TopicPartition};
use bytes::Bytes;

/// The blobs must survive a round trip: they are what other members read.
#[test]
fn a_subscription_round_trips() {
    let subscription = Subscription {
        member_id: "m-1".to_owned(),
        topics: vec!["a".to_owned(), "b".to_owned()],
        owned: vec![TopicPartition::new("a", 0), TopicPartition::new("a", 3)],
        generation: 7,
    };
    let encoded = encode_subscription(&subscription).expect("encode");
    let decoded = decode_subscription("m-1", &encoded).expect("decode");
    assert_eq!(decoded.topics, subscription.topics);
    assert_eq!(decoded.owned, subscription.owned);
    assert_eq!(
        decoded.generation, 7,
        "the generation must survive: without it a leader cannot tell a \
         live ownership claim from a stale one"
    );
}

#[test]
fn an_assignment_round_trips() {
    let partitions = vec![
        TopicPartition::new("a", 0),
        TopicPartition::new("a", 1),
        TopicPartition::new("b", 7),
    ];
    let encoded = encode_assignment(&partitions).expect("encode");
    assert_eq!(decode_assignment(&encoded).expect("decode"), partitions);
}

/// An empty assignment is a real answer and must not decode as an error.
#[test]
fn an_empty_assignment_decodes_to_nothing() {
    let encoded = encode_assignment(&vec![]).expect("encode");
    assert!(decode_assignment(&encoded).expect("decode").is_empty());
}

#[test]
fn a_message_begins_with_its_version() {
    assert_eq!(read_version(&[0, 2, 9]).expect("version"), 2);
    assert!(read_version(&[0]).is_err());
    assert!(decode_assignment(&Bytes::from_static(&[0])).is_err());
    assert!(decode_subscription("m", &Bytes::from_static(&[0, 2, 0])).is_err());
    let encoded = encode_assignment(&vec![TopicPartition::new("a", 0)]).expect("encode");
    assert_eq!(read_version(&encoded).expect("version"), 2);
}

/// The bytes on the wire: version, one topic, its partitions, no user data.
#[test]
fn an_assignments_bytes_are_the_protocols() {
    let encoded = encode_assignment(&vec![TopicPartition::new("ab", 5)]).expect("encode");
    assert_eq!(
        encoded.as_ref(),
        &[
            0, 2, // version
            0, 0, 0, 1, // one topic
            0, 2, b'a', b'b', // its name
            0, 0, 0, 1, 0, 0, 0, 5, // one partition
            0xff, 0xff, 0xff, 0xff, // no user data
        ]
    );
}

#[test]
fn partitions_are_listed_by_topic() {
    let topics = topics_of(&vec![
        TopicPartition::new("b", 1),
        TopicPartition::new("a", 2),
        TopicPartition::new("b", 0),
    ]);
    assert_eq!(
        topics,
        vec![("a".to_owned(), vec![2]), ("b".to_owned(), vec![1, 0])]
    );
}

/// Partitions that stand together by topic come back in the order they were in.
#[test]
fn a_subscription_comes_back_as_it_was() {
    let subscription = Subscription {
        member_id: "m-1".to_owned(),
        topics: vec!["b".to_owned(), "a".to_owned()],
        owned: vec![
            TopicPartition::new("a", 3),
            TopicPartition::new("a", 0),
            TopicPartition::new("b", 2),
            TopicPartition::new("b", 2),
        ],
        generation: 0,
    };
    let encoded = encode_subscription(&subscription).expect("encode");
    assert_eq!(&encoded[..2], &[0, 2]);
    assert_eq!(decode_subscription("m-1", &encoded).expect("decode"), subscription);
}

/// An old version carries no generation, and a message of one byte carries nothing.
#[test]
fn an_old_subscription_has_no_generation() {
    for version in [0, 1] {
        let mut bytes = vec![0, version];
        bytes.extend_from_slice(&[0, 0, 0, 1, 0, 1, b't', 0xff, 0xff, 0xff, 0xff]);
        if version == 1 {
            bytes.extend_from_slice(&[0, 0, 0, 0]);
        }
        let decoded = decode_subscription("m", &Bytes::from(bytes)).expect("decode");
        assert_eq!(decoded.topics, vec!["t".to_owned()]);
        assert_eq!(decoded.generation, -1);
    }
    assert!(decode_subscription("m", &Bytes::from_static(&[0])).is_err());
    assert!(decode_subscription("m", &Bytes::new()).is_err());
}
