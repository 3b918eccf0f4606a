use barnabas::general::decode_records;
use bytes::{Bytes, BytesMut};
use kafka_protocol::records::{
    Compression, Record, RecordBatchEncoder, RecordEncodeOptions, TimestampType,
};

fn batch(base_offset: i64, count: usize) -> Bytes {
    let records: Vec<Record> = (0..count)
        .map(|i| Record {
            transactional: false,
            control: false,
            partition_leader_epoch: 0,
            producer_id: -1,
            producer_epoch: -1,
            timestamp_type: TimestampType::Creation,
            offset: base_offset + i as i64,
            sequence: i as i32,
            timestamp: 0,
            key: None,
            value: Some(Bytes::from(format!("v{i}"))),
            headers: Default::default(),
        })
        .collect();
    let mut buf = BytesMut::new();
    RecordBatchEncoder::encode(
        &mut buf,
        records.iter(),
        &RecordEncodeOptions {
            version: 2,
            compression: Compression::None,
        },
    )
    .expect("encode");
    buf.freeze()
}

#[test]
fn whole_batches_decode() {
    let mut wire = BytesMut::new();
    wire.extend_from_slice(&batch(0, 3));
    wire.extend_from_slice(&batch(3, 2));
    let records = decode_records(&wire.freeze()).expect("decode");
    assert_eq!(records.len(), 5);
}

/// **A fetch that hits `max_bytes` ends mid-batch**, and the broker expects
/// the fragment to be ignored rather than treated as corruption. Failing
/// here fails the whole fetch — which is what happened the moment several
/// partitions shared one response and the limit started binding.
#[test]
fn consumer_a_truncated_trailing_batch_is_ignored() {
    let complete = batch(0, 3);
    let partial = batch(3, 2);

    let mut wire = BytesMut::new();
    wire.extend_from_slice(&complete);
    wire.extend_from_slice(&partial[..partial.len() - 4]);

    let records = decode_records(&wire.freeze()).expect("a truncated tail is not an error");
    assert_eq!(
        records.len(),
        3,
        "the complete batch must survive and the fragment must be dropped"
    );
}

/// Even a fragment too short to hold a header is just "nothing more here".
#[test]
fn a_fragment_shorter_than_a_header_is_ignored() {
    let mut wire = BytesMut::new();
    wire.extend_from_slice(&batch(0, 1));
    wire.extend_from_slice(&[0u8; 5]);
    assert_eq!(decode_records(&wire.freeze()).expect("decode").len(), 1);
}

/// A batch that claims a negative length is corruption, not truncation, and
/// must not be silently skipped.
#[test]
fn a_negative_batch_length_is_an_error() {
    let mut wire = BytesMut::new();
    wire.extend_from_slice(&0i64.to_be_bytes());
    wire.extend_from_slice(&(-1i32).to_be_bytes());
    wire.extend_from_slice(&[0u8; 32]);
    assert!(decode_records(&wire.freeze()).is_err());
}

#[test]
fn a_decoded_record_has_what_was_written() {
    let records = decode_records(&batch(7, 2)).expect("decode");
    assert_eq!(records[0].offset, 7);
    assert_eq!(records[1].offset, 8);
    assert_eq!(records[1].value, Some(Bytes::from_static(b"v1")));
    assert_eq!(records[1].key, None);
    assert!(records[1].headers.is_empty());
    assert_eq!(records[0].producer_id, -1);
}

/// A batch near the end of what an offset can say is read; it is refused where one of its
/// offsets would lie past it.
#[test]
fn only_what_leaves_64_bits_is_refused() {
    let list = decode_records(&batch(i64::MAX - 2, 2)).expect("decode");
    let offsets: Vec<i64> = list.iter().map(|r| r.offset).collect();
    assert_eq!(offsets, vec![i64::MAX - 2, i64::MAX - 1]);
    assert_eq!(list[1].value, Some(Bytes::from_static(b"v1")));
    assert_eq!(list[1].timestamp, 0);

    let mut past = BytesMut::from(&batch(0, 2)[..]);
    past[..8].copy_from_slice(&i64::MAX.to_be_bytes());
    assert!(decode_records(&past.clone().freeze()).is_err());

    // A wrong checksum is an error there too.
    let mut torn = BytesMut::from(&batch(i64::MAX - 2, 2)[..]);
    let last = torn.len() - 1;
    torn[last] ^= 1;
    assert!(decode_records(&torn.freeze()).is_err());
}
