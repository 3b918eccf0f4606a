use barnabas::client::{Disposition, Error};
use barnabas::consumer::IsolationLevel;
use barnabas::fetching::{EARLIEST, LATEST};
use barnabas::group::TopicPartition;
use barnabas::lookup::{
    all_at, lag, list_offsets, offsets_only, on_list_offset, on_no_leader, Lookup, LookupStep,
    OffsetAnswer, SearchEnd,
};
use barnabas::slots::SlotMap;

fn tp(partition: i32) -> TopicPartition {
    TopicPartition::new("t", partition)
}

fn found(partition: i32, offset: i64, timestamp: i64) -> OffsetAnswer {
    OffsetAnswer {
        slot: tp(partition),
        code: 0,
        disposition: Disposition::Success,
        offset,
        timestamp,
    }
}

fn moved(partition: i32) -> OffsetAnswer {
    OffsetAnswer {
        slot: tp(partition),
        code: 6,
        disposition: Disposition::RefreshMetadata,
        offset: -1,
        timestamp: -1,
    }
}

#[test]
fn one_offset_is_found_or_its_leader_moved() {
    assert!(matches!(on_list_offset(0, 0, &[found(0, 9, 1)]), LookupStep::Found(9)));
    assert!(matches!(
        on_list_offset(0, 0, &[moved(0)]),
        LookupStep::Moved { wait_ms: 100 }
    ));
    assert!(matches!(
        on_list_offset(5, 0, &[moved(0)]),
        LookupStep::Failed(Error::Broker { code: 6, .. })
    ));
    assert!(matches!(
        on_list_offset(0, 1, &[found(0, 9, 1)]),
        LookupStep::Failed(Error::Missing("partition"))
    ));
    assert_eq!(on_no_leader(0), Some(100));
    assert_eq!(on_no_leader(5), None);
}

#[test]
fn a_lookup_request_is_grouped_by_topic() {
    let want = vec![
        (TopicPartition::new("b", 1), 5),
        (TopicPartition::new("a", 2), LATEST),
        (TopicPartition::new("b", 0), EARLIEST),
    ];
    let request = list_offsets(&want, IsolationLevel::ReadCommitted);
    assert_eq!((request.replica_id, request.isolation_level), (-1, 1));
    assert_eq!(request.topics[0].0, "a");
    assert_eq!(request.topics[0].1[0].timestamp, LATEST);
    let b: Vec<(i32, i64)> = request.topics[1]
        .1
        .iter()
        .map(|e| (e.partition, e.timestamp))
        .collect();
    assert_eq!(b, vec![(1, 5), (0, EARLIEST)]);
}

/// What an election takes away in one attempt is asked for again in the next.
#[test]
fn a_lookup_survives_an_election() {
    let want = all_at(&vec![tp(0), tp(1), tp(2)], 1_000);
    let mut lookup = Lookup::new(&want);
    assert_eq!(lookup.remaining().len(), 3);
    let leaders = vec![Some("a:1".to_owned()), Some("b:1".to_owned()), None];
    let groups = lookup.by_leader(leaders);
    assert_eq!(groups.len(), 2);
    lookup.on_answer(&groups[0].1, &[found(0, 11, 1_001)]).expect("answer");
    lookup.on_answer(&groups[1].1, &[moved(1)]).expect("answer");
    assert_eq!(lookup.moved().len(), 1);
    match lookup.finish() {
        SearchEnd::Again { refresh, wait_ms } => {
            assert_eq!(refresh, vec!["t".to_owned()]);
            assert_eq!(wait_ms, 100);
        }
        other => panic!("unexpected {other:?}"),
    }
    let left: Vec<i32> = lookup.remaining().iter().map(|(tp, _)| tp.partition).collect();
    assert_eq!(left, vec![1, 2]);
    let groups = lookup.by_leader(vec![Some("c:1".to_owned()), Some("c:1".to_owned())]);
    lookup
        .on_answer(&groups[0].1, &[found(1, 12, 1_002), found(2, -1, -1)])
        .expect("answer");
    match lookup.finish() {
        SearchEnd::Done(map) => {
            assert_eq!(map.get("t", 0), Some(&(11, 1_001)));
            assert_eq!(map.get("t", 1), Some(&(12, 1_002)));
            assert_eq!(map.get("t", 2), None);
            assert_eq!(offsets_only(&map).get("t", 1), Some(&12));
        }
        other => panic!("unexpected {other:?}"),
    }
}

#[test]
fn a_lookup_gives_up_after_its_retries() {
    let mut lookup = Lookup::new(&vec![(tp(0), LATEST)]);
    let mut attempts = 0;
    loop {
        attempts += 1;
        let _ = lookup.by_leader(vec![None]);
        match lookup.finish() {
            SearchEnd::Again { .. } => {}
            SearchEnd::Failed(Error::NoLeader { partition, .. }) => {
                assert_eq!(partition, 0);
                break;
            }
            other => panic!("unexpected {other:?}"),
        }
    }
    assert_eq!(attempts, 6);
}

#[test]
fn an_answer_with_an_error_fails_the_lookup() {
    let mut lookup = Lookup::new(&vec![(tp(0), LATEST)]);
    let groups = lookup.by_leader(vec![Some("a:1".to_owned())]);
    let mut bad = found(0, 1, 1);
    bad.code = 29;
    bad.disposition = Disposition::Fatal;
    assert!(matches!(
        lookup.on_answer(&groups[0].1, &[bad]),
        Err(Error::Broker { op: "ListOffsets", code: 29, .. })
    ));
}

#[test]
fn lag_is_the_distance_to_the_end_and_never_negative() {
    let mut positions = SlotMap::new();
    positions.insert("t", 0, 10);
    positions.insert("t", 1, 10);
    positions.insert("t", 2, 10);
    let mut ends = SlotMap::new();
    ends.insert("t", 0, 25);
    ends.insert("t", 1, 4);
    let lags = lag(&positions, &ends);
    assert_eq!(lags.get("t", 0), Some(&15));
    assert_eq!(lags.get("t", 1), Some(&0));
    assert_eq!(lags.get("t", 2), None);
}
