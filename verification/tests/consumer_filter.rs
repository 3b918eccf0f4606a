use barnabas::consumer::{
    control_type, filter, AbortedTransaction, FetchPosition, Fetched, IsolationLevel, Record,
    TimestampType,
};
use bytes::Bytes;

fn record(offset: i64, producer_id: i64, transactional: bool) -> Record {
    Record {
        transactional,
        control: false,
        partition_leader_epoch: 0,
        producer_id,
        producer_epoch: 0,
        timestamp_type: TimestampType::Creation,
        offset,
        sequence: offset as i32,
        timestamp: 0,
        key: Some(Bytes::from(format!("k{offset}"))),
        value: Some(Bytes::from(format!("v{offset}"))),
        headers: Vec::new(),
    }
}

/// A marker as the broker writes it: control record whose key is
/// `[version:i16][type:i16]`.
fn marker(offset: i64, producer_id: i64, control_type: i16) -> Record {
    let mut key = Vec::new();
    key.extend_from_slice(&0i16.to_be_bytes());
    key.extend_from_slice(&control_type.to_be_bytes());
    Record {
        transactional: true,
        control: true,
        partition_leader_epoch: 0,
        producer_id,
        producer_epoch: 0,
        timestamp_type: TimestampType::Creation,
        offset,
        sequence: 0,
        timestamp: 0,
        key: Some(Bytes::from(key)),
        value: None,
        headers: Vec::new(),
    }
}

const ABORT: i16 = 0;
const COMMIT: i16 = 1;

fn offsets(f: &Fetched) -> Vec<i64> {
    f.records.iter().map(|r| r.offset).collect()
}

/// The plain case: non-transactional data passes through untouched.
#[test]
fn plain_records_pass_through() {
    let recs = vec![record(0, -1, false), record(1, -1, false)];
    let out = filter(recs, &[], 2, IsolationLevel::ReadCommitted, 0);
    assert_eq!(offsets(&out), vec![0, 1]);
    assert_eq!(out.next_offset, 2);
}

/// Aborted records must not reach the caller.
#[test]
fn aborted_records_are_dropped_under_read_committed() {
    let recs = vec![record(0, 7, true), record(1, 7, true), marker(2, 7, ABORT)];
    let aborted = [AbortedTransaction {
        producer_id: 7,
        first_offset: 0,
    }];
    let out = filter(recs, &aborted, 3, IsolationLevel::ReadCommitted, 0);
    assert!(out.records.is_empty(), "aborted data reached the caller");
}

/// A fetch that is entirely aborted must still advance, or the consumer
/// re-requests the same offset forever.
#[test]
fn an_entirely_aborted_fetch_still_makes_progress() {
    let recs = vec![record(10, 7, true), marker(11, 7, ABORT)];
    let aborted = [AbortedTransaction {
        producer_id: 7,
        first_offset: 10,
    }];
    let out = filter(recs, &aborted, 12, IsolationLevel::ReadCommitted, 10);
    assert!(out.records.is_empty());
    assert_eq!(
        out.next_offset, 12,
        "a fully-filtered fetch must advance the position"
    );
}

/// **The case a naive rule gets wrong**, and the reason the abort marker
/// closes the range: one producer, an aborted transaction followed by a
/// committed one, in a single fetch response.
#[test]
fn a_committed_transaction_after_an_aborted_one_survives() {
    let recs = vec![
        record(0, 7, true),  // aborted
        record(1, 7, true),  // aborted
        marker(2, 7, ABORT), // closes the aborted range
        record(3, 7, true),  // committed
        record(4, 7, true),  // committed
        marker(5, 7, COMMIT),
    ];
    let aborted = [AbortedTransaction {
        producer_id: 7,
        first_offset: 0,
    }];
    let out = filter(recs, &aborted, 6, IsolationLevel::ReadCommitted, 0);
    assert_eq!(
        offsets(&out),
        vec![3, 4],
        "the committed transaction after an abort was discarded"
    );
    assert_eq!(out.next_offset, 6);
}

/// Two producers interleaved: only the aborted one's records go.
#[test]
fn only_the_aborted_producer_is_filtered() {
    let recs = vec![
        record(0, 7, true),
        record(1, 8, true),
        record(2, 7, true),
        record(3, 8, true),
        marker(4, 7, ABORT),
        marker(5, 8, COMMIT),
    ];
    let aborted = [AbortedTransaction {
        producer_id: 7,
        first_offset: 0,
    }];
    let out = filter(recs, &aborted, 6, IsolationLevel::ReadCommitted, 0);
    assert_eq!(offsets(&out), vec![1, 3]);
}

/// Rule 1: nothing at or past the last stable offset, and the position does
/// not advance past it either — those records are re-fetched once their
/// transaction resolves.
#[test]
fn records_at_or_past_the_lso_are_withheld() {
    let recs = vec![record(0, -1, false), record(1, 9, true), record(2, 9, true)];
    let out = filter(recs, &[], 1, IsolationLevel::ReadCommitted, 0);
    assert_eq!(offsets(&out), vec![0]);
    assert_eq!(
        out.next_offset, 1,
        "the position must not advance past the LSO"
    );
}

/// Rule 2 holds under both isolation levels: markers are protocol
/// machinery, never data.
#[test]
fn control_records_are_never_returned() {
    for isolation in [
        IsolationLevel::ReadCommitted,
        IsolationLevel::ReadUncommitted,
    ] {
        let recs = vec![record(0, 7, true), marker(1, 7, COMMIT)];
        let out = filter(recs, &[], 2, isolation, 0);
        assert_eq!(offsets(&out), vec![0], "isolation {isolation:?}");
    }
}

/// READ_UNCOMMITTED means what it says: aborted records are visible, and
/// the LSO does not apply.
#[test]
fn consumer_read_uncommitted_sees_aborted_records() {
    let recs = vec![record(0, 7, true), record(1, 7, true)];
    let aborted = [AbortedTransaction {
        producer_id: 7,
        first_offset: 0,
    }];
    let out = filter(recs, &aborted, 0, IsolationLevel::ReadUncommitted, 0);
    assert_eq!(offsets(&out), vec![0, 1]);
}

/// The aborted list arrives in whatever order the broker chose; the filter
/// sorts it rather than assuming.
#[test]
fn the_aborted_list_need_not_be_sorted() {
    let recs = vec![
        record(0, 7, true),
        marker(1, 7, ABORT),
        record(2, 8, true),
        marker(3, 8, ABORT),
    ];
    let aborted = [
        AbortedTransaction {
            producer_id: 8,
            first_offset: 2,
        },
        AbortedTransaction {
            producer_id: 7,
            first_offset: 0,
        },
    ];
    let out = filter(recs, &aborted, 4, IsolationLevel::ReadCommitted, 0);
    assert!(out.records.is_empty());
}

/// **The broker returns whole batches.** A fetch from the middle of one
/// comes back with the earlier records too, and returning them would
/// re-deliver data the caller has already seen.
#[test]
fn records_below_the_fetch_offset_are_dropped() {
    let recs = vec![
        record(0, -1, false),
        record(1, -1, false),
        record(2, -1, false),
    ];
    let out = filter(recs, &[], 3, IsolationLevel::ReadCommitted, 2);
    assert_eq!(offsets(&out), vec![2]);
    assert_eq!(out.next_offset, 3);
}

/// The skip must not lose the aborted-range bookkeeping: a transaction that
/// began before the fetch offset is still aborted after it.
#[test]
fn an_abort_beginning_before_the_fetch_offset_still_applies() {
    let recs = vec![
        record(0, 7, true),
        record(1, 7, true),
        record(2, 7, true),
        marker(3, 7, ABORT),
    ];
    let aborted = [AbortedTransaction {
        producer_id: 7,
        first_offset: 0,
    }];
    let out = filter(recs, &aborted, 4, IsolationLevel::ReadCommitted, 2);
    assert!(
        out.records.is_empty(),
        "an abort that began before the fetch offset was forgotten"
    );
}

/// An empty fetch leaves the position where it was.
#[test]
fn an_empty_fetch_does_not_move_the_position() {
    let out = filter(Vec::new(), &[], 5, IsolationLevel::ReadCommitted, 5);
    assert!(out.records.is_empty());
    assert_eq!(out.next_offset, 5);
}

#[test]
fn isolation_levels_have_the_protocols_numbers() {
    assert_eq!(IsolationLevel::ReadUncommitted.as_i8(), 0);
    assert_eq!(IsolationLevel::ReadCommitted.as_i8(), 1);
}

#[test]
fn only_a_control_record_has_a_control_type() {
    assert_eq!(control_type(&marker(0, 7, COMMIT)), Some(COMMIT));
    assert_eq!(control_type(&record(0, 7, true)), None);
    let mut short = marker(0, 7, ABORT);
    short.key = Some(Bytes::from_static(&[0, 0, 0]));
    assert_eq!(control_type(&short), None);
}

#[test]
fn a_position_is_a_partition_and_an_offset() {
    let position = FetchPosition::new("t", 3, 17);
    assert_eq!(position.topic, "t");
    assert_eq!((position.partition, position.next_offset), (3, 17));
}
