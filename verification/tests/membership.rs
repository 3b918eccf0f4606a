use barnabas::assignor::{CooperativeStickyAssignor, RangeAssignor};
use barnabas::blobs::{decode_assignment, decode_subscription, encode_assignment};
use barnabas::client::{Disposition, Error};
use barnabas::group::{PartitionCounts, Subscription, TopicPartition};
use barnabas::membership::{
    on_commit, on_committed, topics_wanted, ClassicProtocol, CommittedPartition, MemberState,
    Membership, RebalanceProtocol,
};
use barnabas::retry::{GroupCall, GroupStep, Verdict};
use barnabas::slots::SlotMap;
use bytes::Bytes;

fn tp(partition: i32) -> TopicPartition {
    TopicPartition::new("t", partition)
}

fn member(id: &str, stable: bool, can_commit: bool) -> MemberState {
    MemberState {
        member_id: id.to_owned(),
        generation: 4,
        stable,
        can_commit,
        assignment: vec![tp(0)],
        lost: vec![tp(1)],
    }
}

fn protocol() -> ClassicProtocol<RangeAssignor> {
    ClassicProtocol::new("g", vec!["t".to_owned()], RangeAssignor)
}

fn subscription(id: &str) -> Subscription {
    Subscription {
        member_id: id.to_owned(),
        topics: vec!["t".to_owned()],
        owned: Vec::new(),
        generation: -1,
    }
}

/// The assignor's name and the revocation flow are one choice.
#[test]
fn the_assignor_decides_what_is_given_up() {
    assert_eq!(protocol().protocol(), RebalanceProtocol::Eager);
    let cooperative = ClassicProtocol::new("g", Vec::new(), CooperativeStickyAssignor);
    assert_eq!(cooperative.protocol(), RebalanceProtocol::Cooperative);
}

#[test]
fn a_join_carries_the_subscription() {
    let mut me = protocol();
    me.set_session_timeout(10_000);
    me.set_rebalance_timeout(60_000);
    let request = me.join(&member("m", false, false), &subscription("m")).expect("join");
    assert_eq!((request.group_id.as_str(), request.member_id.as_str()), ("g", "m"));
    assert_eq!((request.session_timeout_ms, request.rebalance_timeout_ms), (10_000, 60_000));
    assert_eq!((request.protocol_type, request.protocol_name), ("consumer", "range"));
    assert!(request.deadline_ms > 60_000);
    let read = decode_subscription("m", &request.metadata).expect("decode");
    assert_eq!(read.topics, vec!["t".to_owned()]);
    assert_eq!(me.topics().len(), 1);
}

#[test]
fn the_leader_assigns_for_everyone() {
    let me = protocol();
    let members = vec![subscription("a"), subscription("b")];
    assert_eq!(topics_wanted(&members), vec!["t".to_owned()]);
    let mut counts = PartitionCounts::new();
    counts.insert("t", 3);
    let list = me.assign(&members, &counts).expect("assign");
    assert_eq!(list.len(), 2);
    assert_eq!(list[0].0, "a");
    assert_eq!(decode_assignment(&list[0].1).expect("decode"), vec![tp(0), tp(1)]);
    assert_eq!(decode_assignment(&list[1].1).expect("decode"), vec![tp(2)]);
    let request = me.sync(&member("a", false, false), list);
    assert_eq!((request.generation_id, request.assignments.len()), (4, 2));
    assert_eq!(me.heartbeat(&member("a", true, true)).generation_id, 4);
}

#[test]
fn only_the_leader_reads_the_members() {
    let joined = protocol()
        .join(&member("m", false, false), &subscription("m"))
        .expect("join");
    let members = vec![("m".to_owned(), joined.metadata)];
    let read = ClassicProtocol::<RangeAssignor>::members("m", "m", &members).expect("members");
    assert_eq!(read.len(), 1);
    assert_eq!(read[0].member_id, "m");
    let none = ClassicProtocol::<RangeAssignor>::members("other", "m", &members).expect("members");
    assert!(none.is_empty());
    let bad = vec![("m".to_owned(), Bytes::from_static(&[0]))];
    assert!(ClassicProtocol::<RangeAssignor>::members("m", "m", &bad).is_err());
}

#[test]
fn an_assignment_is_read_from_a_sync() {
    let bytes = encode_assignment(&vec![tp(3)]).expect("encode");
    let read = ClassicProtocol::<RangeAssignor>::assigned(0, &bytes).expect("assigned");
    assert_eq!(read, vec![tp(3)]);
    assert!(ClassicProtocol::<RangeAssignor>::assigned(27, &bytes).expect("none").is_empty());
    assert!(ClassicProtocol::<RangeAssignor>::assigned(0, &Bytes::new()).expect("none").is_empty());
}

/// A revocation is announced once, and the first join has none.
#[test]
fn a_revocation_is_announced_once() {
    let mut me = protocol();
    assert!(matches!(me.advance(&member("m", false, false), false), Membership::InProgress));
    match me.advance(&member("m", true, true), false) {
        Membership::Assigned(list) => assert_eq!(list, vec![tp(0)]),
        other => panic!("unexpected {other:?}"),
    }
    match me.advance(&member("m", false, false), false) {
        Membership::Revoked(list) => assert_eq!(list, vec![tp(1)]),
        other => panic!("unexpected {other:?}"),
    }
    assert!(matches!(me.advance(&member("m", false, false), true), Membership::InProgress));
}

#[test]
fn a_coordinator_is_found_or_waited_for() {
    let mut me = protocol();
    assert_eq!(me.coordinator(), None);
    assert!(matches!(
        me.on_coordinator_found(0, 15, Disposition::FindCoordinator, "", 0),
        Verdict::Again { .. }
    ));
    assert!(matches!(
        me.on_coordinator_found(0, 30, Disposition::Fatal, "", 0),
        Verdict::Fail { code: 30, .. }
    ));
    assert!(matches!(
        me.on_coordinator_found(1, 0, Disposition::Success, "h", 9092),
        Verdict::Done
    ));
    assert_eq!(me.coordinator(), Some("h:9092".to_owned()));
    let _ = me.advance(&member("m", false, false), true);
    assert_eq!(me.coordinator(), None);
}

/// Between a revocation and the next assignment nothing is committed.
#[test]
fn a_commit_needs_a_current_claim() {
    let me = protocol();
    let mut offsets = SlotMap::new();
    assert!(matches!(me.commit(&member("m", false, false), &offsets), Ok(None)));
    offsets.insert("t", 0, 9);
    assert!(matches!(
        me.commit(&member("m", false, false), &offsets),
        Err(Error::Broker { op: "OffsetCommit", code: 27, .. })
    ));
    let request = me
        .commit(&member("m", true, true), &offsets)
        .expect("commit")
        .expect("some");
    assert_eq!(request.topics[0].1[0].offset, 9);
    assert_eq!(request.topics[0].1[0].leader_epoch, -1);
    assert!(me.group_metadata(&member("m", false, false)).is_none());
    let token = me.group_metadata(&member("m", true, true)).expect("current");
    assert_eq!(token.group_id(), "g");
}

#[test]
fn committed_offsets_are_asked_for_and_read() {
    let me = protocol();
    assert!(me.committed(&Vec::new()).is_none());
    let (group, topics) = me.committed(&vec![tp(1), tp(0)]).expect("some");
    assert_eq!(group, "g");
    assert_eq!(topics, vec![("t".to_owned(), vec![1, 0])]);

    let part = |partition: i32, code: i16, offset: i64| CommittedPartition {
        slot: tp(partition),
        code,
        disposition: Disposition::Retry,
        offset,
    };
    let offsets = on_committed(0, Disposition::Success, &[part(0, 0, 5), part(1, 0, -1)])
        .expect("committed");
    assert_eq!(offsets.get("t", 0), Some(&5));
    assert_eq!(offsets.get("t", 1), None, "never committed is not zero");
    assert!(on_committed(0, Disposition::Success, &[part(0, 14, 5)]).is_err());
    assert!(on_committed(16, Disposition::FindCoordinator, &[]).is_err());
    assert!(on_commit(&[(0, Disposition::Success)]).is_ok());
    assert!(matches!(
        on_commit(&[(0, Disposition::Success), (22, Disposition::Fatal)]),
        Err(Error::Broker { code: 22, .. })
    ));
}

#[test]
fn only_a_member_leaves() {
    let me = protocol();
    assert_eq!(me.leave(&member("", false, false)), None);
    assert_eq!(
        me.leave(&member("m", true, true)),
        Some(("g".to_owned(), "m".to_owned()))
    );
}

/// A group's coordinator that moved is found again before the request goes out again.
#[test]
fn a_group_call_finds_a_moved_coordinator_again() {
    let mut call = GroupCall::new();
    assert!(matches!(call.next(), GroupStep::Find));
    assert!(matches!(
        call.on_found(0, Disposition::Success, "h", 1),
        Verdict::Done
    ));
    match call.next() {
        GroupStep::Send(addr) => assert_eq!(addr, "h:1"),
        other => panic!("unexpected {other:?}"),
    }
    assert!(matches!(
        call.on_answer(16, Disposition::FindCoordinator),
        Verdict::Again { .. }
    ));
    assert!(matches!(call.next(), GroupStep::Find));
}
