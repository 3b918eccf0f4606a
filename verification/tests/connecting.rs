use barnabas::builder::ProducerBuilder;
use barnabas::client::{disposition, Disposition, Error};
use barnabas::consumer::IsolationLevel;
use barnabas::fetching::{Consumer, PollStep};
use barnabas::frames::{frame, Connection};
use barnabas::group::TopicPartition;
use barnabas::login::nonce;
use barnabas::metadata::{BrokerAddr, Freshness, Metadata, TopicLeaders};
use barnabas::producer::ProducerIdentity;
use barnabas::sender::{Producer, ProducerRecord};

fn answer(correlation_id: i32, rest: &[u8]) -> Vec<u8> {
    let mut body = correlation_id.to_be_bytes().to_vec();
    body.extend_from_slice(rest);
    frame(&body).expect("short enough")
}

#[test]
fn a_frame_is_a_length_and_the_message() {
    assert_eq!(frame(&[7, 8, 9]), Some(vec![0, 0, 0, 3, 7, 8, 9]));
    assert_eq!(frame(&[]), Some(vec![0, 0, 0, 0]));
}

#[test]
fn answers_come_back_in_the_order_of_their_requests() {
    let mut conn = Connection::new();
    assert_eq!(conn.request(1, 12), 0);
    assert_eq!(conn.request(3, 9), 1);
    assert_eq!(conn.in_flight(), 2);

    let mut bytes = answer(0, b"fetched");
    bytes.extend_from_slice(&answer(1, b"known"));
    conn.push_bytes(&bytes);

    let first = conn.next_response().expect("sound").expect("whole");
    assert_eq!((first.request.kind, first.request.version), (1, 12));
    assert_eq!(&first.body[4..], b"fetched");
    let second = conn.next_response().expect("sound").expect("whole");
    assert_eq!((second.request.kind, second.request.version), (3, 9));
    assert_eq!(&second.body[4..], b"known");
    assert_eq!(conn.in_flight(), 0);
    assert!(matches!(conn.next_response(), Ok(None)));
}

#[test]
fn a_message_is_there_once_all_of_it_came() {
    let mut conn = Connection::new();
    conn.request(0, 0);
    let bytes = answer(0, b"abc");
    assert_eq!(conn.needed(), 4);
    for (i, byte) in bytes.iter().enumerate() {
        assert!(matches!(conn.next_response(), Ok(None)), "after {i} bytes");
        conn.push_bytes(&[*byte]);
        if i + 1 >= 4 {
            assert_eq!(conn.needed(), bytes.len() - i - 1);
        }
    }
    assert!(matches!(conn.next_response(), Ok(Some(_))));
}

#[test]
fn an_answer_to_nothing_or_to_another_request_is_refused() {
    let mut conn = Connection::new();
    conn.push_bytes(&answer(0, b""));
    assert!(matches!(conn.next_response(), Err(Error::Missing("matching request"))));

    let mut conn = Connection::new();
    conn.request(0, 0);
    conn.push_bytes(&answer(5, b""));
    assert!(matches!(conn.next_response(), Err(Error::Missing("matching request"))));

    let mut conn = Connection::new();
    conn.request(0, 0);
    conn.push_bytes(&[0, 0, 0, 2, 0, 0]);
    assert!(matches!(conn.next_response(), Err(Error::Missing("matching request"))));

    let mut conn = Connection::new();
    conn.request(0, 0);
    conn.push_bytes(&[0xff, 0xff, 0xff, 0xff]);
    assert_eq!(conn.needed(), 0);
    assert!(matches!(conn.next_response(), Err(Error::Missing("frame length"))));
}

fn broker(node_id: i32, port: i32) -> BrokerAddr {
    BrokerAddr { node_id, host: "h".to_owned(), port }
}

fn leaders(name: &str, list: &[(i32, i32)]) -> TopicLeaders {
    TopicLeaders { name: name.to_owned(), leaders: list.to_vec() }
}

#[test]
fn the_cluster_map_follows_its_answers() {
    let mut map = Metadata::new();
    assert_eq!(map.partition_count("t"), 0);
    assert_eq!(map.leader_for("t", 0), None);
    assert_eq!(map.controller_addr(), None);

    map.update(vec![broker(1, 9092), broker(2, 9093)], 2, &vec![leaders("t", &[(0, 1), (1, 2)])]);
    assert_eq!(map.partition_count("t"), 2);
    assert_eq!(map.leader_for("t", 0).as_deref(), Some("h:9092"));
    assert_eq!(map.leader_for("t", 1).as_deref(), Some("h:9093"));
    assert_eq!(map.controller(), Some(2));
    assert_eq!(map.controller_addr().as_deref(), Some("h:9093"));
    assert_eq!(map.brokers().len(), 2);

    // Another topic's answer leaves this one alone; an election takes a leader away.
    map.update(vec![broker(1, 9092)], -1, &vec![leaders("u", &[(0, 1)])]);
    assert_eq!(map.leader_for("t", 0).as_deref(), Some("h:9092"));
    assert_eq!(map.leader_for("t", 1), None, "its broker is gone");
    assert_eq!(map.controller(), None);
    map.update(vec![broker(1, 9092)], 1, &vec![leaders("t", &[(0, -1), (1, 1)])]);
    assert_eq!(map.leader_for("t", 0), None);
    assert_eq!(map.leader_for("t", 1).as_deref(), Some("h:9092"));

    // A topic that is still being created has no partitions to report.
    map.update(vec![broker(1, 9092)], 1, &vec![leaders("t", &[])]);
    assert_eq!(map.partition_count("t"), 2);
}

#[test]
fn forgetting_one_leader_keeps_the_others() {
    let mut map = Metadata::new();
    map.update(vec![broker(1, 9092)], 1, &vec![leaders("t", &[(0, 1), (1, 1)])]);
    map.invalidate_partition("t", 0);
    assert_eq!(map.leader_for("t", 0), None);
    assert_eq!(map.leader_for("t", 1).as_deref(), Some("h:9092"));
    assert_eq!(map.partition_count("t"), 2);
    map.invalidate_controller();
    assert_eq!(map.controller_addr(), None);
}

#[test]
fn metadata_is_fresh_for_five_minutes() {
    let mut freshness = Freshness::new();
    assert!(!freshness.is_fresh("t", 0), "never asked for");
    freshness.on_refreshed("t", 1_000);
    assert!(freshness.is_fresh("t", 1_000));
    assert!(freshness.is_fresh("t", 300_999));
    assert!(!freshness.is_fresh("t", 301_000));
    assert!(freshness.is_fresh("t", 0), "a clock that went backwards");
    assert!(!freshness.is_fresh("u", 1_000));
    freshness.set_max_age(10);
    assert!(freshness.is_fresh("t", 1_009));
    assert!(!freshness.is_fresh("t", 1_010));
    freshness.set_max_age(0);
    assert!(!freshness.is_fresh("t", 0));
}

#[test]
fn a_code_asks_for_one_thing() {
    assert_eq!(disposition(0), Disposition::Success);
    for code in [3, 5, 6] {
        assert_eq!(disposition(code), Disposition::RefreshMetadata, "{code}");
    }
    for code in [15, 16] {
        assert_eq!(disposition(code), Disposition::FindCoordinator, "{code}");
    }
    for code in [7, 14, 19, 20, 27, 41, 51] {
        assert_eq!(disposition(code), Disposition::Retry, "{code}");
    }
    for code in [-1, 1, 22, 45, 47, 58, i16::MIN, i16::MAX] {
        assert_eq!(disposition(code), Disposition::Fatal, "{code}");
    }
}

#[test]
fn a_nonce_is_three_numbers_in_hexadecimal() {
    assert_eq!(nonce(0, 0x7ffd_10c0, 255), "07ffd10c0ff");
    assert_ne!(nonce(1, 2, 3), nonce(2, 2, 3));
}

#[test]
fn a_poll_goes_through_its_steps() {
    let mut consumer = Consumer::new(IsolationLevel::ReadCommitted);
    assert_eq!(consumer.isolation(), IsolationLevel::ReadCommitted);
    assert_eq!(consumer.poll_step(), PollStep::Nothing);
    consumer.assign("t", 0, 7);
    assert_eq!(consumer.poll_step(), PollStep::Send);
    consumer.on_sent(vec![("h:1".to_owned(), vec![TopicPartition::new("t", 0)])]);
    assert_eq!(consumer.poll_step(), PollStep::Receive);
    consumer.seek_to("t", 0, 3);
    assert_eq!(consumer.poll_step(), PollStep::Discard);
    consumer.discard();
    assert_eq!(consumer.poll_step(), PollStep::Send);
    consumer.pause(&vec![TopicPartition::new("t", 0)]);
    assert_eq!(consumer.poll_step(), PollStep::Nothing);
}

#[test]
fn a_partition_has_room_for_what_its_sequences_leave() {
    let mut producer = Producer::idempotent();
    producer.on_init_producer_id(ProducerIdentity { id: 9, epoch: 0 });
    assert!(producer.has_room("t", 0, i32::MAX as usize));
    let records = vec![ProducerRecord::new(None, None), ProducerRecord::new(None, None)];
    producer.enqueue("t", 0, &records, 0).expect("queued");
    assert!(producer.has_room("t", 0, i32::MAX as usize - 2));
    assert!(!producer.has_room("t", 0, i32::MAX as usize - 1));
    assert!(producer.has_room("t", 1, i32::MAX as usize));
    assert!(!producer.has_room("t", 1, usize::MAX));
}

#[test]
fn a_window_is_what_it_was_set_to() {
    let ready = ProducerBuilder { transport: () }
        .bootstrap(vec!["h:1".to_owned()])
        .client_id("app");
    assert_eq!(ready.in_flight_limit(), None);
    assert_eq!(ready.max_in_flight(2).in_flight_limit(), Some(2));
}
