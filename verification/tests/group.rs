use barnabas::assignor::{
    Assignor, CooperativeStickyAssignor, RangeAssignor, RoundRobinAssignor, StickyAssignor,
};
use barnabas::group::{Assignment, PartitionCounts, Subscription, TopicPartition};

fn member(id: &str, topics: &[&str]) -> Subscription {
    Subscription {
        member_id: id.to_owned(),
        topics: topics.iter().map(|t| (*t).to_owned()).collect(),
        owned: Vec::new(),
        generation: 1,
    }
}

fn holding(id: &str, topics: &[&str], owned: &[(&str, i32)]) -> Subscription {
    Subscription {
        member_id: id.to_owned(),
        topics: topics.iter().map(|t| (*t).to_owned()).collect(),
        owned: owned
            .iter()
            .map(|(t, p)| TopicPartition::new(*t, *p))
            .collect(),
        generation: 1,
    }
}

fn topics(entries: &[(&str, i32)]) -> PartitionCounts {
    let mut counts = PartitionCounts::new();
    for (topic, count) in entries {
        counts.insert(topic, *count);
    }
    counts
}

fn list<'a>(assignment: &'a Assignment, member: &str) -> &'a Vec<TopicPartition> {
    assignment.get(member).expect("member present")
}

fn everything(assignment: &Assignment) -> Vec<&TopicPartition> {
    assignment.entries().iter().flat_map(|(_, list)| list).collect()
}

fn partitions_of(assignment: &Assignment, member: &str) -> Vec<i32> {
    list(assignment, member).iter().map(|tp| tp.partition).collect()
}

fn flat(assignment: &Assignment, member: &str) -> Vec<String> {
    list(assignment, member)
        .iter()
        .map(|tp| format!("{}:{}", tp.topic, tp.partition))
        .collect()
}

/// Every member of a group runs the same strategy and must reach the same answer. These
/// are the answers of the Java client, `kafka-clients` 3.9.0.
#[test]
fn range_and_roundrobin_match_the_java_client() {
    let two = [member("c0", &["t"]), member("c1", &["t"])];
    let a = RangeAssignor.assign(&two, &topics(&[("t", 3)]));
    assert_eq!(flat(&a, "c0"), ["t:0", "t:1"]);
    assert_eq!(flat(&a, "c1"), ["t:2"]);

    let a = RoundRobinAssignor.assign(&two, &topics(&[("t", 3)]));
    assert_eq!(flat(&a, "c0"), ["t:0", "t:2"]);
    assert_eq!(flat(&a, "c1"), ["t:1"]);

    let both = [member("c0", &["a", "b"]), member("c1", &["a", "b"])];
    let spec = topics(&[("a", 3), ("b", 3)]);
    let a = RangeAssignor.assign(&both, &spec);
    assert_eq!(flat(&a, "c0"), ["a:0", "a:1", "b:0", "b:1"]);
    assert_eq!(flat(&a, "c1"), ["a:2", "b:2"]);

    let a = RoundRobinAssignor.assign(&both, &spec);
    assert_eq!(flat(&a, "c0"), ["a:0", "a:2", "b:1"]);
    assert_eq!(flat(&a, "c1"), ["a:1", "b:0", "b:2"]);

    let uneven = [member("c0", &["a"]), member("c1", &["a", "b"])];
    let a = RoundRobinAssignor.assign(&uneven, &topics(&[("a", 2), ("b", 2)]));
    assert_eq!(flat(&a, "c0"), ["a:0"]);
    assert_eq!(flat(&a, "c1"), ["a:1", "b:0", "b:1"]);

    let three = [
        member("c0", &["a", "b"]),
        member("c1", &["a", "b"]),
        member("c2", &["a"]),
    ];
    let spec = topics(&[("a", 5), ("b", 3)]);
    let a = RangeAssignor.assign(&three, &spec);
    assert_eq!(flat(&a, "c0"), ["a:0", "a:1", "b:0", "b:1"]);
    assert_eq!(flat(&a, "c1"), ["a:2", "a:3", "b:2"]);
    assert_eq!(flat(&a, "c2"), ["a:4"]);

    let a = RoundRobinAssignor.assign(&three, &spec);
    assert_eq!(flat(&a, "c0"), ["a:0", "a:3", "b:0", "b:2"]);
    assert_eq!(flat(&a, "c1"), ["a:1", "a:4", "b:1"]);
    assert_eq!(flat(&a, "c2"), ["a:2"]);
}

/// Java's documented example: 3 partitions, 2 members, the earlier member
/// takes the extra one.
#[test]
fn range_gives_the_remainder_to_the_earliest_members() {
    let assignment = RangeAssignor.assign(
        &[member("c0", &["t"]), member("c1", &["t"])],
        &topics(&[("t", 3)]),
    );
    assert_eq!(partitions_of(&assignment, "c0"), vec![0, 1]);
    assert_eq!(partitions_of(&assignment, "c1"), vec![2]);
}

#[test]
fn range_splits_evenly_when_it_divides() {
    let assignment = RangeAssignor.assign(
        &[member("c0", &["t"]), member("c1", &["t"])],
        &topics(&[("t", 4)]),
    );
    assert_eq!(partitions_of(&assignment, "c0"), vec![0, 1]);
    assert_eq!(partitions_of(&assignment, "c1"), vec![2, 3]);
}

/// Range works topic by topic, so with
/// two 3-partition topics `c0` takes the extra from *each*: 4 against 2.
/// A "fix" here would disagree with every Java member in the group.
#[test]
fn range_is_lopsided_across_topics_and_that_is_correct() {
    let assignment = RangeAssignor.assign(
        &[member("c0", &["a", "b"]), member("c1", &["a", "b"])],
        &topics(&[("a", 3), ("b", 3)]),
    );
    assert_eq!(list(&assignment, "c0").len(), 4);
    assert_eq!(list(&assignment, "c1").len(), 2);
}

/// The same input round-robin balances, which is the reason to choose it.
#[test]
fn roundrobin_balances_across_topics() {
    let assignment = RoundRobinAssignor.assign(
        &[member("c0", &["a", "b"]), member("c1", &["a", "b"])],
        &topics(&[("a", 3), ("b", 3)]),
    );
    assert_eq!(list(&assignment, "c0").len(), 3);
    assert_eq!(list(&assignment, "c1").len(), 3);
}

/// A member that did not subscribe is skipped rather than given the
/// partition, and the deal continues from the next member.
#[test]
fn roundrobin_skips_members_that_did_not_subscribe() {
    let assignment = RoundRobinAssignor.assign(
        &[member("c0", &["a"]), member("c1", &["a", "b"])],
        &topics(&[("a", 2), ("b", 2)]),
    );
    assert!(list(&assignment, "c0").iter().all(|tp| tp.topic == "a"));
    assert_eq!(
        list(&assignment, "c1").iter().filter(|tp| tp.topic == "b").count(),
        2
    );
}

/// Nobody subscribed, so the partition goes unassigned rather than to an
/// uninterested member.
#[test]
fn a_topic_nobody_wants_is_left_alone() {
    let assignment =
        RoundRobinAssignor.assign(&[member("c0", &["a"])], &topics(&[("a", 1), ("z", 4)]));
    assert_eq!(list(&assignment, "c0").len(), 1);
    assert!(list(&assignment, "c0").iter().all(|tp| tp.topic == "a"));
}

/// Every member appears, even with nothing — "assigned nothing" must be
/// distinguishable from "the leader forgot me".
#[test]
fn every_member_appears_in_the_result() {
    let assignment = RangeAssignor.assign(
        &[member("c0", &["a"]), member("idle", &["nonexistent"])],
        &topics(&[("a", 1)]),
    );
    assert!(assignment.contains_key("idle"));
    assert!(list(&assignment, "idle").is_empty());
}

/// The point of sticky: a member that keeps its subscription keeps its
/// partitions when someone else leaves.
#[test]
fn sticky_keeps_what_is_still_valid() {
    let assignment = StickyAssignor.assign(
        &[
            holding("c0", &["t"], &[("t", 0), ("t", 1)]),
            holding("c1", &["t"], &[("t", 2)]),
        ],
        &topics(&[("t", 4)]),
    );
    // 0 and 1 stay put; 3 is new and goes to whoever holds fewest.
    assert!(list(&assignment, "c0").contains(&TopicPartition::new("t", 0)));
    assert!(list(&assignment, "c0").contains(&TopicPartition::new("t", 1)));
    assert!(list(&assignment, "c1").contains(&TopicPartition::new("t", 2)));
    assert!(list(&assignment, "c1").contains(&TopicPartition::new("t", 3)));
}

/// **Sticky must balance, not merely preserve.** A member joining an
/// established group has to be given something, which means taking it from
/// someone.
#[test]
fn sticky_takes_from_the_over_provisioned_to_feed_a_new_member() {
    let assignment = StickyAssignor.assign(
        &[
            holding("c0", &["t"], &[("t", 0), ("t", 1), ("t", 2), ("t", 3)]),
            holding("c1", &["t"], &[]),
        ],
        &topics(&[("t", 4)]),
    );
    assert_eq!(list(&assignment, "c0").len(), 2, "the incumbent gives up half");
    assert_eq!(list(&assignment, "c1").len(), 2, "the newcomer is fed");
}

/// A partition two members both claim to own is given to exactly one.
/// After a rebalance both may believe they hold it, and handing it to both
/// is duplicate consumption.
#[test]
fn sticky_never_assigns_a_partition_twice() {
    let assignment = StickyAssignor.assign(
        &[
            holding("c0", &["t"], &[("t", 0)]),
            holding("c1", &["t"], &[("t", 0)]),
        ],
        &topics(&[("t", 2)]),
    );
    let mut all = everything(&assignment);
    let before = all.len();
    all.sort();
    all.dedup();
    assert_eq!(all.len(), before, "a partition was assigned twice");
    assert_eq!(before, 2, "both partitions must be assigned");
}

/// A partition the member owns but that no longer exists is dropped rather
/// than carried forward — topics shrink when they are recreated smaller.
#[test]
fn sticky_drops_partitions_that_no_longer_exist() {
    let assignment = StickyAssignor.assign(
        &[holding("c0", &["t"], &[("t", 0), ("t", 99)])],
        &topics(&[("t", 1)]),
    );
    assert_eq!(*list(&assignment, "c0"), vec![TopicPartition::new("t", 0)]);
}

/// **A partition moving between members is assigned to neither**, this
/// round. Its owner will revoke it and the next round hands it over — which
/// is the whole of KIP-429.
#[test]
fn cooperative_withholds_a_partition_that_must_move() {
    // c0 holds both; c1 is new, so one has to move.
    let members = [
        holding("c0", &["t"], &[("t", 0), ("t", 1)]),
        holding("c1", &["t"], &[]),
    ];
    let assignment = CooperativeStickyAssignor.assign(&members, &topics(&[("t", 2)]));

    let total: usize = everything(&assignment).len();
    assert_eq!(
        total, 1,
        "the moving partition must be withheld: {assignment:?}"
    );
    assert_eq!(
        list(&assignment, "c0").len(),
        1,
        "c0 keeps the one it is not losing"
    );
    assert!(
        list(&assignment, "c1").is_empty(),
        "c1 waits a round for its share"
    );
}

/// Nothing is moving, so nothing is withheld and the round is complete.
#[test]
fn cooperative_publishes_everything_when_nothing_moves() {
    let members = [holding("c0", &["t"], &[("t", 0), ("t", 1)])];
    let assignment = CooperativeStickyAssignor.assign(&members, &topics(&[("t", 2)]));
    assert_eq!(list(&assignment, "c0").len(), 2);
}

/// An unowned partition needs no handover, so it is granted immediately.
#[test]
fn cooperative_grants_unowned_partitions_at_once() {
    let members = [holding("c0", &["t"], &[("t", 0)])];
    let assignment = CooperativeStickyAssignor.assign(&members, &topics(&[("t", 2)]));
    assert_eq!(
        list(&assignment, "c0").len(),
        2,
        "the new partition needs no handover"
    );
}

/// **A claim from an older generation is ignored.**
///
/// A member that was away still advertises what it used to hold. Believing
/// it is how one partition ends up assigned to two members — silently,
/// since Kafka relays whatever the leader computed without checking.
#[test]
fn a_stale_ownership_claim_is_not_believed() {
    let stale = Subscription {
        member_id: "old".to_owned(),
        topics: vec!["t".to_owned()],
        owned: vec![TopicPartition::new("t", 0), TopicPartition::new("t", 1)],
        generation: 1,
    };
    let current = Subscription {
        member_id: "new".to_owned(),
        topics: vec!["t".to_owned()],
        owned: vec![],
        generation: 5,
    };

    let assignment = CooperativeStickyAssignor.assign(&[stale, current], &topics(&[("t", 2)]));
    // The stale claim is ignored for *stickiness* — the target does not
    // preserve it — but the partitions are still withheld, because that
    // member is still reading them until it says otherwise.
    let total: usize = everything(&assignment).len();
    assert!(
        total <= 2,
        "no partition may be handed out twice: {assignment:?}"
    );
    let mut all = everything(&assignment);
    let before = all.len();
    all.sort();
    all.dedup();
    assert_eq!(all.len(), before, "a partition was assigned twice");
}

/// Every strategy must place every partition of a subscribed topic exactly
/// once. A gap is a partition nobody reads; an overlap is duplicate
/// consumption. Both are silent.
#[test]
fn every_partition_is_assigned_exactly_once() {
    let members = [
        member("c0", &["a", "b"]),
        member("c1", &["a", "b"]),
        member("c2", &["a"]),
    ];
    let spec = topics(&[("a", 5), ("b", 3)]);

    for (name, assignment) in [
        ("range", RangeAssignor.assign(&members, &spec)),
        ("roundrobin", RoundRobinAssignor.assign(&members, &spec)),
        ("sticky", StickyAssignor.assign(&members, &spec)),
    ] {
        let mut all = everything(&assignment);
        let count = all.len();
        all.sort();
        all.dedup();
        assert_eq!(all.len(), count, "{name} assigned a partition twice");
        assert_eq!(all.len(), 8, "{name} did not assign every partition");
    }
}

#[test]
fn strategies_have_the_names_that_members_negotiate() {
    assert_eq!(RangeAssignor.name(), "range");
    assert_eq!(RoundRobinAssignor.name(), "roundrobin");
    assert_eq!(StickyAssignor.name(), "sticky");
    assert_eq!(CooperativeStickyAssignor.name(), "cooperative-sticky");
}

#[test]
fn a_group_of_nobody_is_assigned_nothing() {
    let spec = topics(&[("t", 3)]);
    assert!(RangeAssignor.assign(&[], &spec).entries().is_empty());
    assert!(RoundRobinAssignor.assign(&[], &spec).entries().is_empty());
    assert!(StickyAssignor.assign(&[], &spec).entries().is_empty());
    assert!(CooperativeStickyAssignor.assign(&[], &spec).entries().is_empty());
}

#[test]
fn partition_counts_are_listed_in_the_order_of_their_topics() {
    let counts = topics(&[("b", 1), ("a", 2), ("b", 3)]);
    assert_eq!(
        *counts.entries(),
        vec![("a".to_owned(), 2), ("b".to_owned(), 3)]
    );
    assert_eq!(counts.get("b"), Some(3));
    assert_eq!(counts.get("z"), None);
    assert_eq!(counts.partitions().len(), 5);
}

/// In whatever order the members arrive, the answer is the same.
#[test]
fn the_order_of_arrival_changes_nothing() {
    let make = || {
        vec![
            holding("c0", &["a", "b"], &[("a", 0), ("a", 1)]),
            holding("c1", &["a"], &[("a", 2)]),
            holding("c2", &["b"], &[]),
        ]
    };
    let reversed = || {
        let mut members = make();
        members.reverse();
        members
    };
    let counts = topics(&[("a", 5), ("b", 3)]);
    for id in ["c0", "c1", "c2"] {
        assert_eq!(
            flat(&RangeAssignor.assign(&make(), &counts), id),
            flat(&RangeAssignor.assign(&reversed(), &counts), id)
        );
        assert_eq!(
            flat(&RoundRobinAssignor.assign(&make(), &counts), id),
            flat(&RoundRobinAssignor.assign(&reversed(), &counts), id)
        );
        assert_eq!(
            flat(&StickyAssignor.assign(&make(), &counts), id),
            flat(&StickyAssignor.assign(&reversed(), &counts), id)
        );
        assert_eq!(
            flat(&CooperativeStickyAssignor.assign(&make(), &counts), id),
            flat(&CooperativeStickyAssignor.assign(&reversed(), &counts), id)
        );
    }
}

/// Where everyone wants everything, partitions are dealt in turn over all topics.
#[test]
fn roundrobin_deals_in_turn() {
    let members = vec![member("c1", &["a", "b"]), member("c0", &["a", "b"])];
    let assignment = RoundRobinAssignor.assign(&members, &topics(&[("a", 3), ("b", 2)]));
    assert_eq!(flat(&assignment, "c0"), vec!["a:0", "a:2", "b:1"]);
    assert_eq!(flat(&assignment, "c1"), vec!["a:1", "b:0"]);
}

/// Nobody keeps more than its fair share of what it held.
#[test]
fn sticky_keeps_at_most_a_fair_share() {
    let members = vec![
        holding("c0", &["t"], &[("t", 0), ("t", 1), ("t", 2), ("t", 3)]),
        holding("c1", &["t"], &[]),
    ];
    let assignment = StickyAssignor.assign(&members, &topics(&[("t", 4)]));
    assert_eq!(partitions_of(&assignment, "c0"), vec![0, 1]);
    assert_eq!(partitions_of(&assignment, "c1"), vec![2, 3]);
}

/// A member that joins a group whose partitions are all held is given one.
#[test]
fn sticky_feeds_a_member_that_joins() {
    let assignment = StickyAssignor.assign(
        &[
            holding("c0", &["t"], &[("t", 0), ("t", 1)]),
            holding("c1", &["t"], &[("t", 2), ("t", 3)]),
            holding("c2", &["t"], &[]),
        ],
        &topics(&[("t", 4)]),
    );
    assert_eq!(partitions_of(&assignment, "c0"), vec![0, 1]);
    assert_eq!(partitions_of(&assignment, "c1"), vec![2]);
    assert_eq!(partitions_of(&assignment, "c2"), vec![3]);
}

/// Nobody joins and nobody leaves: whoever has the larger share keeps it.
#[test]
fn sticky_leaves_a_balanced_group_alone() {
    let members = [
        holding("c0", &["t"], &[("t", 0)]),
        holding("c1", &["t"], &[("t", 1), ("t", 2)]),
    ];
    let spec = topics(&[("t", 3)]);
    for assignment in [
        StickyAssignor.assign(&members, &spec),
        CooperativeStickyAssignor.assign(&members, &spec),
    ] {
        assert_eq!(partitions_of(&assignment, "c0"), vec![0]);
        assert_eq!(partitions_of(&assignment, "c1"), vec![1, 2]);
    }
}

#[test]
fn sticky_leaves_the_only_partition_with_its_holder() {
    let members = [holding("c0", &["t"], &[]), holding("c1", &["t"], &[("t", 0)])];
    let spec = topics(&[("t", 1)]);
    for assignment in [
        StickyAssignor.assign(&members, &spec),
        CooperativeStickyAssignor.assign(&members, &spec),
    ] {
        assert!(partitions_of(&assignment, "c0").is_empty());
        assert_eq!(partitions_of(&assignment, "c1"), vec![0]);
    }
}

#[test]
fn sticky_moves_no_more_than_it_must() {
    let members = [
        holding("c0", &["t"], &[]),
        holding("c1", &["t"], &[("t", 0), ("t", 1), ("t", 2)]),
    ];
    let assignment = StickyAssignor.assign(&members, &topics(&[("t", 3)]));
    assert_eq!(partitions_of(&assignment, "c0"), vec![2]);
    assert_eq!(partitions_of(&assignment, "c1"), vec![0, 1]);
}

/// A member that joins with fewer topics is given its part of them, and what only the other
/// wants stays where it is.
#[test]
fn sticky_evens_out_between_different_subscriptions() {
    let members = [
        holding("c0", &["a", "b"], &[("a", 0), ("a", 1), ("b", 0), ("b", 1)]),
        holding("c1", &["a"], &[]),
    ];
    let spec = topics(&[("a", 2), ("b", 2)]);
    let assignment = StickyAssignor.assign(&members, &spec);
    assert_eq!(flat(&assignment, "c0"), vec!["b:0", "b:1"]);
    assert_eq!(flat(&assignment, "c1"), vec!["a:0", "a:1"]);

    let first = CooperativeStickyAssignor.assign(&members, &spec);
    assert_eq!(flat(&first, "c0"), vec!["b:0", "b:1"]);
    assert!(flat(&first, "c1").is_empty());
    let next = CooperativeStickyAssignor.assign(&back(&members, &first, 2), &spec);
    assert_eq!(next.entries(), assignment.entries());

    // Three of the four are of the shared topic: one each is moved until the two are even.
    let members = [
        holding("c0", &["a", "b"], &[("a", 0), ("a", 1), ("a", 2), ("b", 0)]),
        holding("c1", &["a"], &[]),
    ];
    let assignment = StickyAssignor.assign(&members, &topics(&[("a", 3), ("b", 1)]));
    assert_eq!(list(&assignment, "c0").len(), 2);
    assert_eq!(list(&assignment, "c1").len(), 2);
    assert!(list(&assignment, "c1").iter().all(|tp| tp.topic == "a"));
}

/// A group is left alone although its members want different topics, and one of them holds
/// more than an even part of what it wants.
#[test]
fn sticky_leaves_a_balanced_mixed_group_alone() {
    let members = [
        holding("c0", &["a"], &[("a", 0)]),
        holding("c1", &["a"], &[("a", 1), ("a", 2)]),
        holding("c2", &["a", "b"], &[("b", 0), ("b", 1), ("b", 2), ("b", 3)]),
    ];
    let spec = topics(&[("a", 3), ("b", 4)]);
    for assignment in [
        StickyAssignor.assign(&members, &spec),
        CooperativeStickyAssignor.assign(&members, &spec),
    ] {
        assert_eq!(flat(&assignment, "c0"), vec!["a:0"]);
        assert_eq!(flat(&assignment, "c1"), vec!["a:1", "a:2"]);
        assert_eq!(flat(&assignment, "c2"), vec!["b:0", "b:1", "b:2", "b:3"]);
    }

    // One more partition is dealt out, and nothing else moves.
    let spec = topics(&[("a", 3), ("b", 5)]);
    let assignment = StickyAssignor.assign(&members, &spec);
    assert_eq!(flat(&assignment, "c1"), vec!["a:1", "a:2"]);
    assert_eq!(list(&assignment, "c2").len(), 5);
    let again = StickyAssignor.assign(&back(&members, &assignment, 2), &spec);
    assert_eq!(again.entries(), assignment.entries());
}

/// The members as they come back, each holding what it was given.
fn back(members: &[Subscription], given: &Assignment, generation: i32) -> Vec<Subscription> {
    members
        .iter()
        .map(|m| Subscription {
            member_id: m.member_id.clone(),
            topics: m.topics.clone(),
            owned: list(given, &m.member_id).clone(),
            generation,
        })
        .collect()
}

#[test]
fn sticky_moves_nothing_when_nothing_has_changed() {
    let members = [
        holding("c1", &["t", "u"], &[("t", 4), ("t", 1), ("u", 0)]),
        holding("c0", &["u", "t"], &[("t", 1)]),
        holding("c2", &["t", "u"], &[]),
    ];
    let spec = topics(&[("t", 5), ("u", 2), ("unwanted", 3)]);
    let first = StickyAssignor.assign(&members, &spec);
    let again = StickyAssignor.assign(&back(&members, &first, 2), &spec);
    assert_eq!(first.entries(), again.entries());
    let mut sizes: Vec<usize> = first.entries().iter().map(|(_, l)| l.len()).collect();
    sizes.sort();
    assert_eq!(sizes, vec![2, 2, 3]);
}

/// What one cooperative round takes away, the next one hands over.
#[test]
fn the_next_cooperative_round_completes_the_move() {
    let members = [
        holding("c0", &["t"], &[("t", 0), ("t", 1), ("t", 2)]),
        holding("c1", &["t"], &[]),
        holding("c2", &["t"], &[]),
    ];
    let spec = topics(&[("t", 3)]);
    let first = CooperativeStickyAssignor.assign(&members, &spec);
    assert_eq!(everything(&first).len(), 1);
    let next = CooperativeStickyAssignor.assign(&back(&members, &first, 2), &spec);
    assert_eq!(everything(&next).len(), 3);
    assert_eq!(partitions_of(&next, "c0"), partitions_of(&first, "c0"));
    assert!(next.entries().iter().all(|(_, l)| l.len() == 1));
}

#[test]
fn a_topic_nobody_wants_costs_nobody_a_turn() {
    let members = [member("c0", &["a", "c"]), member("c1", &["a", "c"])];
    let without = RoundRobinAssignor.assign(&members, &topics(&[("a", 3), ("c", 2)]));
    let with = RoundRobinAssignor.assign(&members, &topics(&[("a", 3), ("b", 5), ("c", 2)]));
    assert_eq!(without.entries(), with.entries());
}
