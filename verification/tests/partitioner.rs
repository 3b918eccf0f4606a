use barnabas::partitioner::{crc32, murmur2, Partitioner};

/// The standard CRC-32 check value: the polynomial, reflection, initial value and
/// final xor are all right.
#[test]
fn crc32_matches_the_standard_check_value() {
    assert_eq!(crc32(b"123456789"), 0xCBF4_3926);
}

#[test]
fn crc32_of_empty_is_zero() {
    assert_eq!(crc32(b""), 0);
}

/// The tail path takes a branch per length, and the hash is stable.
#[test]
fn murmur2_is_stable_across_tail_lengths() {
    let hashes: Vec<i32> = ["", "a", "ab", "abc", "abcd", "abcde"]
        .iter()
        .map(|s| murmur2(s.as_bytes()))
        .collect();
    // Distinct: a tail branch that fell through wrongly would collide.
    for i in 0..hashes.len() {
        for j in (i + 1)..hashes.len() {
            assert_ne!(hashes[i], hashes[j], "murmur2 collided on short keys");
        }
    }
    // Stable across calls.
    assert_eq!(murmur2(b"abc"), hashes[3]);
}

/// Values that other clients of the same hash publish.
#[test]
fn murmur2_matches_published_values() {
    assert_eq!(murmur2(b"21"), -973932308);
    assert_eq!(murmur2(b"foobar"), -790332482);
    assert_eq!(murmur2(b"a-little-bit-long-string"), -985981536);
    assert_eq!(murmur2(b"a-little-bit-longer-string"), -1486304829);
    assert_eq!(
        murmur2(b"lkjh234lh9fiuh90y23oiuhsafujhadof229phr9h19h89h8"),
        -58897971
    );
    assert_eq!(murmur2(b"abc"), 479470107);
}

/// The same key always lands on the same partition.
#[test]
fn a_key_is_stable() {
    for p in [Partitioner::Crc32, Partitioner::Murmur2] {
        let mut counter = 0;
        let first = p.partition_for(Some(b"user-42"), 12, &mut counter);
        assert!(first.is_some());
        for _ in 0..10 {
            assert_eq!(p.partition_for(Some(b"user-42"), 12, &mut counter), first);
        }
    }
}

/// Every partition is reachable, and none is out of range.
#[test]
fn partitions_are_in_range_and_spread() {
    for p in [Partitioner::Crc32, Partitioner::Murmur2] {
        let mut counter = 0;
        let mut seen = std::collections::HashSet::new();
        for i in 0..2000 {
            let key = format!("key-{i}");
            let part = p
                .partition_for(Some(key.as_bytes()), 8, &mut counter)
                .expect("a positive partition count");
            assert!((0..8).contains(&part), "{p:?} produced partition {part}");
            seen.insert(part);
        }
        assert_eq!(seen.len(), 8, "{p:?} never used some partitions");
    }
}

/// The two disagree, which is the entire reason both exist.
#[test]
fn the_two_partitioners_disagree() {
    let mut c1 = 0;
    let mut c2 = 0;
    let differing = (0..100).filter(|i| {
        let key = format!("key-{i}");
        Partitioner::Crc32.partition_for(Some(key.as_bytes()), 16, &mut c1)
            != Partitioner::Murmur2.partition_for(Some(key.as_bytes()), 16, &mut c2)
    });
    assert!(
        differing.count() > 50,
        "the CRC-32 and murmur2 partitioners agreed suspiciously often"
    );
}

/// Null keys round-robin rather than piling onto one partition.
#[test]
fn null_keys_are_spread() {
    let mut counter = 0;
    let picks: Vec<i32> = (0..6)
        .map(|_| {
            Partitioner::Crc32
                .partition_for(None, 3, &mut counter)
                .expect("a positive partition count")
        })
        .collect();
    assert_eq!(picks, vec![0, 1, 2, 0, 1, 2]);
}

/// The counter advances only for null keys.
#[test]
fn a_keyed_record_does_not_advance_the_round_robin() {
    let mut counter = 0;
    let _ = Partitioner::Crc32.partition_for(Some(b"k"), 4, &mut counter);
    assert_eq!(counter, 0);
    let _ = Partitioner::Crc32.partition_for(None, 4, &mut counter);
    assert_eq!(counter, 1);
}

/// A topic that is still being created has no partitions yet.
#[test]
fn a_topic_with_no_partitions_yields_no_partition() {
    let mut counter = 0;
    assert_eq!(
        Partitioner::Crc32.partition_for(Some(b"k"), 0, &mut counter),
        None
    );
    assert_eq!(
        Partitioner::Crc32.partition_for(None, -1, &mut counter),
        None
    );
}

#[test]
fn the_default_is_crc32() {
    assert_eq!(Partitioner::default(), Partitioner::Crc32);
    let mut counter = u32::MAX;
    assert_eq!(Partitioner::Crc32.partition_for(None, 3, &mut counter), Some(0));
    assert_eq!(counter, 0);
}
