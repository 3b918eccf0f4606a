use std::collections::VecDeque;

use barnabas::admin::{
    by_leader, describe_cluster, on_controller_answer, on_delete_records, on_describe_configs,
    on_no_controller, on_visibility, Admin, ConfigAnswer, ConfigStep, NewTopic, TrimAnswer,
    Visibility,
};
use barnabas::client::{address, check, check_all, first_error, Disposition, Error};
use barnabas::group::TopicPartition;
use barnabas::grouping::grouped;
use barnabas::name_map::NameMap;
use barnabas::names::{distinct, has, is_before, same};
use barnabas::retry::{again, backoff_ms, coordinator_verdict, Verdict};
use barnabas::routing::{
    after_call, check_metadata, controller, host, leader, partition_count, read_size, ApiVersions,
    CallEnd,
};
use barnabas::slots::{sorted, SlotMap};
use barnabas::text::{parse_u32, push_decimal, second_word, split, trim};
use barnabas::window::{drop_empty, settle, Answer};

fn tp(partition: i32) -> TopicPartition {
    TopicPartition::new("t", partition)
}

#[test]
fn the_wait_doubles_up_to_a_quarter_second() {
    let waits: Vec<u64> = (0..8).map(backoff_ms).collect();
    assert_eq!(waits, vec![5, 10, 20, 40, 80, 160, 250, 250]);
    assert_eq!(backoff_ms(usize::MAX), 250);
}

#[test]
fn a_coordinators_answer_is_retried_found_again_or_final() {
    assert!(matches!(
        coordinator_verdict(0, "EndTxn", 0, Disposition::Success),
        Verdict::Done
    ));
    assert!(matches!(
        coordinator_verdict(3, "EndTxn", 14, Disposition::Retry),
        Verdict::Again { wait_ms: 40 }
    ));
    assert!(matches!(
        coordinator_verdict(0, "EndTxn", 90, Disposition::Fatal),
        Verdict::Fail { wait_ms: 0, op: "EndTxn", code: 90, .. }
    ));
    assert!(matches!(again(0, "EndTxn"), Verdict::Again { wait_ms: 5 }));
    assert!(matches!(again(39, "EndTxn"), Verdict::Fail { .. }));
}

#[test]
fn a_code_of_zero_is_success() {
    assert!(check("Op", 0, Disposition::Success).is_ok());
    assert!(matches!(
        check("Op", 7, Disposition::Retry),
        Err(Error::Broker { op: "Op", code: 7, disposition: Disposition::Retry })
    ));
    assert_eq!(first_error(&[0, 0, 41, 3]), 41);
    assert_eq!(first_error(&[]), 0);
    assert!(check_all("Op", &[(0, Disposition::Success)]).is_ok());
    assert!(matches!(
        check_all("Op", &[(0, Disposition::Success), (3, Disposition::Fatal), (4, Disposition::Fatal)]),
        Err(Error::Broker { code: 3, .. })
    ));
    assert_eq!(address("broker-1", 9092), "broker-1:9092");
    assert_eq!(address("h", -5), "h:-5");
}

fn answer(round: usize, partition: i32, code: i16, base_offset: i64) -> Answer {
    Answer {
        round,
        slot: tp(partition),
        code,
        disposition: match code {
            0 => Disposition::Success,
            6 => Disposition::RefreshMetadata,
            45 => Disposition::Fatal,
            _ => Disposition::Retry,
        },
        base_offset,
    }
}

/// Only the front of a queue leaves it, and only the rounds before the first failure.
#[test]
fn a_window_settles_up_to_its_first_failure() {
    let mut pending: SlotMap<VecDeque<u8>> = SlotMap::new();
    pending.insert("t", 0, VecDeque::from([1, 2, 3]));
    pending.insert("t", 1, VecDeque::from([7]));
    let answers = [
        answer(0, 0, 0, 100),
        answer(0, 1, 0, 50),
        answer(1, 0, 6, -1),
        answer(2, 0, 45, -1),
    ];
    let (settled, stopped) = settle(&mut pending, &answers);
    assert_eq!(stopped, None, "a consequence of an earlier failure is not fatal");
    assert_eq!(
        settled.written,
        vec![("t".to_owned(), 0, 100), ("t".to_owned(), 1, 50)]
    );
    assert_eq!(settled.moved, vec![tp(0)]);
    assert_eq!(pending.get("t", 0), Some(&VecDeque::from([2, 3])));
    drop_empty(&mut pending);
    assert_eq!(pending.keys(), vec![tp(0)]);
}

#[test]
fn an_unexplained_fatal_answer_stops_a_window() {
    let mut pending: SlotMap<VecDeque<u8>> = SlotMap::new();
    pending.insert("t", 0, VecDeque::from([1]));
    let (_, stopped) = settle(&mut pending, &[answer(0, 0, 45, -1)]);
    assert_eq!(stopped, Some(0));
}

#[test]
fn versions_are_negotiated() {
    let versions = ApiVersions::new(vec![(0, 3, 9), (1, 4, 5)]);
    assert_eq!(versions.negotiated(0, 8), 8);
    assert_eq!(versions.negotiated(0, 12), 9);
    assert_eq!(versions.negotiated(1, 2), 4);
    assert_eq!(versions.negotiated(7, 2), 2);
}

#[test]
fn reads_are_sized_within_bounds() {
    assert_eq!(read_size(0), 16_384);
    assert_eq!(read_size(20_000), 20_000);
    assert_eq!(read_size(usize::MAX), 1_048_576);
}

#[test]
fn a_broken_connection_is_tried_once_more() {
    let first = after_call(0, CallEnd::Broken);
    assert!(first.drop && first.again);
    let second = after_call(1, CallEnd::Broken);
    assert!(second.drop && !second.again);
    let late = after_call(0, CallEnd::TimedOut);
    assert!(late.drop && !late.again);
    let fine = after_call(0, CallEnd::Answered);
    assert!(!fine.drop && !fine.again);
}

#[test]
fn metadata_fails_on_what_waiting_does_not_mend() {
    assert!(check_metadata(&[(3, Disposition::RefreshMetadata)]).is_ok());
    assert!(check_metadata(&[(29, Disposition::Fatal)]).is_err());
    assert_eq!(leader("t", 0, Some("h:1".to_owned())).unwrap(), "h:1");
    assert!(matches!(
        leader("t", 3, None),
        Err(Error::NoLeader { partition: 3, .. })
    ));
    assert!(partition_count("t", 4).is_ok());
    assert!(partition_count("t", 0).is_err());
    assert!(matches!(controller(None), Err(Error::Missing("a controller"))));
    assert_eq!(host("broker.example:9093"), "broker.example");
    assert_eq!(host("[::1]:9093"), "[::1]");
    assert_eq!(host("plain"), "plain");
}

#[test]
fn a_new_topic_carries_its_settings() {
    let topic = NewTopic::new("t", 3, 1)
        .with_config("retention.ms", "1")
        .with_config("cleanup.policy", "compact")
        .with_config("retention.ms", "2");
    assert_eq!(
        topic.configs(),
        vec![
            ("cleanup.policy".to_owned(), "compact".to_owned()),
            ("retention.ms".to_owned(), "2".to_owned()),
        ]
    );
    let mut admin = Admin::new();
    let request = admin.create_topics(&vec![topic]).expect("some");
    assert_eq!(request.timeout_ms, 30_000);
    assert_eq!(request.topics[0].name, "t");
    assert_eq!((request.topics[0].partitions, request.topics[0].replication_factor), (3, 1));
    assert!(admin.create_topics(&Vec::new()).is_none());
    admin.set_operation_timeout(5);
    assert_eq!(admin.create_partitions("t", 6).timeout_ms, 5);
    assert_eq!(admin.create_partitions("t", 6).count, 6);
    assert!(!admin.create_partitions("t", 6).validate_only);
    admin.set_operation_timeout(u64::MAX);
    assert_eq!(
        admin.delete_topics(&vec!["t".to_owned()]).expect("some").timeout_ms,
        i32::MAX
    );
    assert!(admin.delete_topics(&Vec::new()).is_none());
}

/// A broker that is not the controller is forgotten, not asked forever.
#[test]
fn the_controller_is_found_again() {
    let (verdict, forget) = on_controller_answer(0, "CreateTopics", 41, Disposition::Fatal);
    assert!(matches!(verdict, Verdict::Again { wait_ms: 50 }));
    assert!(forget);
    let (verdict, _) = on_controller_answer(19, "CreateTopics", 41, Disposition::Fatal);
    assert!(matches!(
        verdict,
        Verdict::Fail { code: 41, disposition: Disposition::Retry, .. }
    ));
    let (verdict, forget) = on_controller_answer(0, "CreateTopics", 36, Disposition::Fatal);
    assert!(matches!(verdict, Verdict::Fail { wait_ms: 0, code: 36, .. }));
    assert!(!forget);
    let (verdict, _) = on_controller_answer(18, "CreateTopics", 7, Disposition::Retry);
    assert!(matches!(verdict, Verdict::Again { .. }));
    let (verdict, _) = on_controller_answer(19, "CreateTopics", 7, Disposition::Retry);
    assert!(matches!(verdict, Verdict::Fail { code: 7, .. }));
    assert_eq!(on_no_controller(18), Some(50));
    assert_eq!(on_no_controller(19), None);
}

#[test]
fn a_change_is_done_when_it_is_visible() {
    assert!(matches!(on_visibility("t", 0, 3, 3), Visibility::Visible));
    assert!(matches!(on_visibility("t", 0, 2, 3), Visibility::Wait { wait_ms: 50 }));
    assert!(matches!(
        on_visibility("t", 19, 2, 3),
        Visibility::Failed(Error::NoLeader { partition: -1, .. })
    ));
}

#[test]
fn a_cluster_names_its_controller() {
    let list = describe_cluster(
        vec![(1, "a".to_owned(), 9092), (2, "b".to_owned(), 9093)],
        Some(2),
    );
    assert!(!list[0].is_controller && list[1].is_controller);
    assert_eq!((list[1].host.as_str(), list[1].port), ("b", 9093));
}

#[test]
fn a_configuration_is_read_once_the_topic_is_known() {
    let part = |code: i16, configs: Vec<(String, Option<String>)>| ConfigAnswer {
        code,
        disposition: if code == 3 { Disposition::RefreshMetadata } else { Disposition::Fatal },
        configs,
    };
    assert!(matches!(
        on_describe_configs(0, Vec::new()),
        ConfigStep::Failed(Error::Missing("a resource"))
    ));
    assert!(matches!(
        on_describe_configs(0, vec![part(3, Vec::new())]),
        ConfigStep::Again { wait_ms: 50 }
    ));
    assert!(matches!(
        on_describe_configs(19, vec![part(3, Vec::new())]),
        ConfigStep::Failed(Error::Broker { op: "DescribeConfigs", code: 3, .. })
    ));
    let configs = vec![
        ("a".to_owned(), Some("1".to_owned())),
        ("b".to_owned(), None),
    ];
    match on_describe_configs(0, vec![part(0, configs)]) {
        ConfigStep::Done(map) => {
            assert_eq!(map.get("a"), Some(&Some("1".to_owned())));
            assert_eq!(map.get("b"), Some(&None));
            assert_eq!(map.names(), vec!["a".to_owned(), "b".to_owned()]);
        }
        other => panic!("unexpected {other:?}"),
    }
}

#[test]
fn records_are_deleted_leader_by_leader() {
    let before = vec![(tp(0), 5), (tp(1), 7)];
    let groups = by_leader(&before, &vec!["b:1".to_owned(), "a:1".to_owned()]);
    assert_eq!(groups[0], ("a:1".to_owned(), vec![(tp(1), 7)]));
    let request = Admin::new().delete_records(&groups[0].1);
    assert_eq!(request.topics[0].0, "t");
    assert_eq!((request.topics[0].1[0].partition, request.topics[0].1[0].offset), (1, 7));

    let mut starts = SlotMap::new();
    let trim = |partition: i32, code: i16| TrimAnswer {
        slot: tp(partition),
        code,
        disposition: Disposition::Fatal,
        low_watermark: 7,
    };
    on_delete_records(&mut starts, &[trim(1, 0)]).expect("deleted");
    assert_eq!(starts.get("t", 1), Some(&7));
    assert!(matches!(
        on_delete_records(&mut starts, &[trim(0, 29), trim(2, 0)]),
        Err(Error::Broker { op: "DeleteRecords", code: 29, .. })
    ));
    assert_eq!(starts.get("t", 2), None);
}

#[test]
fn values_are_grouped_by_name_in_order() {
    let groups = grouped(vec![
        ("b".to_owned(), 1),
        ("a".to_owned(), 2),
        ("b".to_owned(), 3),
    ]);
    assert_eq!(
        groups,
        vec![("a".to_owned(), vec![2]), ("b".to_owned(), vec![1, 3])]
    );
}

#[test]
fn maps_keep_their_keys_in_order() {
    let mut map = SlotMap::new();
    map.insert("b", 0, 'x');
    map.insert("a", 1, 'y');
    map.insert("a", 0, 'z');
    map.insert("a", 0, 'w');
    assert_eq!(map.len(), 3);
    assert_eq!(
        map.keys(),
        vec![
            TopicPartition::new("a", 0),
            TopicPartition::new("a", 1),
            TopicPartition::new("b", 0),
        ]
    );
    assert_eq!(map.get("a", 0), Some(&'w'));
    assert_eq!(map.remove("a", 1), Some('y'));
    assert!(!map.contains("a", 1));
    assert_eq!(map.into_entries().len(), 2);

    let mut names = NameMap::new();
    names.insert("k", 1);
    assert_eq!(names.get("k"), Some(&1));
    assert_eq!(names.remove("k"), Some(1));
    assert_eq!(names.get("k"), None);
    assert_eq!(
        sorted(vec![tp(2), tp(0), tp(1)]),
        vec![tp(0), tp(1), tp(2)]
    );
}

#[test]
fn names_compare_by_their_characters() {
    assert!(is_before("a", "b"));
    assert!(is_before("a", "aa"));
    assert!(!is_before("b", "a"));
    assert!(same("x", "x") && !same("x", "y"));
    let list = vec!["b".to_owned(), "a".to_owned(), "b".to_owned()];
    assert!(has(&list, "b") && !has(&list, "c"));
    assert_eq!(distinct(&list), vec!["a".to_owned(), "b".to_owned()]);
    // Beyond ASCII the order is that of the bytes too.
    assert!(is_before("z", "\u{e9}"));
}

#[test]
fn numbers_and_words_are_read_from_text() {
    assert_eq!(parse_u32("4096"), Some(4096));
    assert_eq!(parse_u32("+7"), Some(7));
    assert_eq!(parse_u32("4294967295"), Some(u32::MAX));
    assert_eq!(parse_u32("4294967296"), None);
    for bad in ["", "+", "-1", "1x", " 1"] {
        assert_eq!(parse_u32(bad), None, "{bad:?}");
        assert_eq!(bad.parse::<u32>().ok(), None);
    }
    for text in ["", " ", "\u{a0} a b\t", "\u{2003}x\u{3000}", "a\u{200b}"] {
        assert_eq!(trim(text), text.trim(), "{text:?}");
        assert_eq!(
            second_word(text).as_deref(),
            text.split_whitespace().nth(1),
            "{text:?}"
        );
    }
    assert_eq!(split("a,,b"), vec!["a".to_owned(), String::new(), "b".to_owned()]);
    assert_eq!(split(""), vec![String::new()]);
    let mut out = String::new();
    push_decimal(&mut out, i64::MIN);
    assert_eq!(out, i64::MIN.to_string());
}
