use barnabas::lean::{lean_bytes, lean_offsets, parse_only, record_count};
use barnabas::records::decode_lean;
use barnabas::workload::{
    brokers, consume_records, encoded_batch, fits, key, owned, payload, payload_mixed, rss_kib,
    unique_topic, want, PARTITIONS,
};

#[test]
fn the_walk_agrees_with_the_reader() {
    let batch = encoded_batch(300, 20).expect("small enough");
    assert_eq!(record_count(&batch), 300);
    assert_eq!(parse_only(&batch), 300);
    let read = decode_lean(&batch).expect("decode").expect("handled");
    let reader = &read[0];
    let slim = lean_offsets(&batch);
    let slices = lean_bytes(&batch);
    assert_eq!(slim.len(), 300);
    for (i, record) in reader.records.iter().enumerate() {
        assert_eq!(slim[i].offset, record.offset);
        assert_eq!(slices[i].0, i as i64);
        assert_eq!(Some(slices[i].1.clone()), reader.key(record));
        assert_eq!(Some(slices[i].2.clone()), reader.value(record));
        assert_eq!(slices[i].1.as_ref(), format!("k{i}").as_bytes());
        assert_eq!(slices[i].2.as_ref(), &[b'x'; 20][..]);
    }
}

#[test]
fn no_records_make_no_batch() {
    assert_eq!(encoded_batch(0, 10).map(|b| b.len()), Some(0));
}

/// However many cores there are, every partition is written to, by one core alone.
#[test]
fn every_partition_is_owned_once() {
    for cores in 1..=8usize {
        let mut all: Vec<i32> = (0..cores).flat_map(|core| owned(cores, core)).collect();
        all.sort_unstable();
        assert_eq!(all, (0..PARTITIONS).collect::<Vec<i32>>(), "{cores} cores");
    }
    assert_eq!(owned(3, 2), vec![6, 7]);
}

#[test]
fn settings_are_read_from_text() {
    assert_eq!(brokers("a:1, b:2 "), vec!["a:1".to_owned(), "b:2".to_owned()]);
    assert!(want(None, "decode"));
    assert!(want(Some("produce, decode"), "decode"));
    assert!(!want(Some("produce"), "decode"));
    assert_eq!(consume_records(None), 1_000_000);
    assert_eq!(consume_records(Some("5000")), 5_000);
    assert_eq!(consume_records(Some("many")), 1_000_000);
    assert_eq!(unique_topic("k", 42), "bench-k-42");
    assert!(fits(1_000, 1_024));
    assert!(!fits(1_000, 8_192));
    assert!(!fits(usize::MAX, 2));
    assert_eq!(rss_kib("1000 250 3 4"), 1_000);
    assert_eq!(rss_kib("1000"), 0);
    assert_eq!(rss_kib("a b"), 0);
}

#[test]
fn payloads_have_their_size() {
    assert_eq!(payload(5).as_ref(), b"xxxxx");
    assert_eq!(key(1_234).as_ref(), b"k1234");
    let mixed = payload_mixed(300);
    assert_eq!(mixed.len(), 300);
    assert!(mixed.starts_with(b"level=info msg=request path=/api/v1/items status=200 "));
    // The generator's first state fills the second half of the first 64 bytes.
    let mut state = 0x2545_F491_4F6C_DD1Du64;
    for _ in 0..2 {
        state ^= state << 13;
        state ^= state >> 7;
        state ^= state << 17;
    }
    assert_eq!(mixed[53..61], state.to_le_bytes());
}
