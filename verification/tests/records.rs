use barnabas::consumer;
use barnabas::consumer::{AbortedTransaction, IsolationLevel};
use barnabas::error::{CodecFault, Error};
use barnabas::records::{decode_lean, filter_batches, LeanBatch};
use bytes::{Bytes, BytesMut};
use kafka_protocol::records::{
    Compression, Record, RecordBatchEncoder, RecordEncodeOptions, TimestampType,
};

fn encode(records: &[Record], compression: Compression) -> Bytes {
    let mut buf = bytes::BytesMut::new();
    RecordBatchEncoder::encode(
        &mut buf,
        records.iter(),
        &RecordEncodeOptions {
            version: 2,
            compression,
        },
    )
    .expect("encode");
    buf.freeze()
}

fn record(offset: i64, key: Option<&[u8]>, value: Option<&[u8]>) -> Record {
    Record {
        transactional: false,
        control: false,
        partition_leader_epoch: 0,
        producer_id: 7,
        producer_epoch: 0,
        timestamp_type: TimestampType::Creation,
        offset,
        sequence: offset as i32,
        timestamp: 1_000 + offset,
        key: key.map(Bytes::copy_from_slice),
        value: value.map(Bytes::copy_from_slice),
        headers: Default::default(),
    }
}

/// The property that matters: the same bytes, read two ways, agree.
#[test]
fn agrees_with_the_reference_decoder() {
    let records: Vec<Record> = (0..64)
        .map(|i| {
            record(
                i,
                Some(format!("k{i}").as_bytes()),
                Some(format!("value-{i}").as_bytes()),
            )
        })
        .collect();
    let encoded = encode(&records, Compression::None);

    let reference = kafka_protocol::records::RecordBatchDecoder::decode(&mut encoded.clone())
        .expect("reference decode")
        .records;
    let lean = decode_lean(&encoded)
        .expect("lean decode")
        .expect("handled");

    let flat: Vec<_> = lean
        .iter()
        .flat_map(|batch| batch.records.iter().map(move |r| (batch, r)))
        .collect();
    assert_eq!(flat.len(), reference.len());

    for ((batch, lean), reference) in flat.iter().zip(&reference) {
        assert_eq!(lean.offset, reference.offset, "offset");
        assert_eq!(lean.timestamp, reference.timestamp, "timestamp");
        assert_eq!(batch.key(lean), reference.key, "key");
        assert_eq!(batch.value(lean), reference.value, "value");
        assert_eq!(batch.producer_id, reference.producer_id, "producer id");
    }
}

#[test]
fn a_null_key_stays_null() {
    let encoded = encode(&[record(0, None, Some(b"v"))], Compression::None);
    let lean = decode_lean(&encoded).expect("decode").expect("handled");
    let batch = &lean[0];
    assert_eq!(batch.key(&batch.records[0]), None);
    assert_eq!(batch.value(&batch.records[0]), Some(Bytes::from_static(b"v")));
}

/// Every codec round-trips, and against the reference decoder's output.
#[test]
fn records_every_compression_codec_round_trips() {
    for compression in [
        Compression::Gzip,
        Compression::Snappy,
        Compression::Lz4,
        Compression::Zstd,
    ] {
        let records: Vec<Record> = (0..32)
            .map(|i| {
                record(
                    i,
                    Some(format!("k{i}").as_bytes()),
                    Some(format!("value-{i}").as_bytes()),
                )
            })
            .collect();
        let encoded = encode(&records, compression);

        let lean = decode_lean(&encoded)
            .unwrap_or_else(|e| panic!("{compression:?}: {e:?}"))
            .unwrap_or_else(|| panic!("{compression:?} was handed back"));
        let flat: Vec<_> = lean
            .iter()
            .flat_map(|b| b.records.iter().map(move |r| (b, r)))
            .collect();
        assert_eq!(flat.len(), records.len(), "{compression:?}");
        for ((batch, lean), reference) in flat.iter().zip(&records) {
            assert_eq!(lean.offset, reference.offset, "{compression:?} offset");
            assert_eq!(batch.value(lean), reference.value, "{compression:?} value");
        }
    }
}

/// Headers survive, and are read from the region rather than at decode time.
#[test]
fn headers_are_read_on_demand() {
    let mut with_headers = record(0, Some(b"k"), Some(b"v"));
    with_headers.headers.insert(
        kafka_protocol::protocol::StrBytes::from_static_str("trace"),
        Some(Bytes::from_static(b"abc")),
    );
    with_headers.headers.insert(
        kafka_protocol::protocol::StrBytes::from_static_str("empty"),
        None,
    );
    let encoded = encode(&[with_headers], Compression::None);

    let lean = decode_lean(&encoded).expect("decode").expect("handled");
    let batch = &lean[0];
    let headers = batch.headers(&batch.records[0]).expect("headers");
    assert_eq!(headers.len(), 2);
    assert_eq!(headers[0].0, Bytes::from_static(b"trace"));
    assert_eq!(headers[0].1, Some(Bytes::from_static(b"abc")));
    assert_eq!(headers[1].0, Bytes::from_static(b"empty"));
    assert_eq!(headers[1].1, None);
}

/// A record with no headers costs nothing and reports nothing.
#[test]
fn no_headers_is_empty() {
    let encoded = encode(&[record(0, None, Some(b"v"))], Compression::None);
    let lean = decode_lean(&encoded).expect("decode").expect("handled");
    let batch = &lean[0];
    assert!(batch.headers(&batch.records[0]).expect("headers").is_empty());
}

/// A response cut off at `max_bytes` ends mid-batch. That fragment is not
/// an error — the broker does it on purpose — and must simply be ignored.
#[test]
fn records_a_truncated_trailing_batch_is_ignored() {
    let encoded = encode(&[record(0, None, Some(b"v"))], Compression::None);
    let mut truncated = bytes::BytesMut::from(&encoded[..]);
    truncated.extend_from_slice(&encoded[..encoded.len() / 2]);
    let lean = decode_lean(&truncated.freeze())
        .expect("decode")
        .expect("handled");
    assert_eq!(lean.len(), 1, "the whole batch is kept, the fragment is not");
    assert_eq!(lean[0].records.len(), 1);
}

/// A corrupted body must be caught, not handed to the caller.
#[test]
fn a_bad_crc_is_an_error() {
    let encoded = encode(&[record(0, None, Some(b"value"))], Compression::None);
    let mut corrupt = bytes::BytesMut::from(&encoded[..]);
    let last = corrupt.len() - 1;
    corrupt[last] ^= 0xff;
    assert!(decode_lean(&corrupt.freeze()).is_err());
}

fn decoded(records: &[Record]) -> Vec<LeanBatch> {
    decode_lean(&encode(records, Compression::None))
        .expect("decode")
        .expect("handled")
}

#[test]
fn a_bad_crc_says_what_it_expected() {
    let encoded = encode(&[record(0, None, Some(b"value"))], Compression::None);
    let mut corrupt = BytesMut::from(&encoded[..]);
    corrupt[17] ^= 0xff;
    match decode_lean(&corrupt.freeze()) {
        Err(Error::Codec(CodecFault::Crc { expected, actual })) => {
            assert_eq!(expected ^ actual, 0xff00_0000);
        }
        other => panic!("unexpected {other:?}"),
    }
}

#[test]
fn an_unknown_codec_is_an_error() {
    let encoded = encode(&[record(0, None, Some(b"value"))], Compression::None);
    let mut odd = BytesMut::from(&encoded[..]);
    odd[22] |= 7;
    let sum = crc32c::crc32c(&odd[21..]);
    odd[17..21].copy_from_slice(&sum.to_be_bytes());
    match decode_lean(&odd.freeze()) {
        Err(Error::Codec(CodecFault::UnknownCodec(7))) => {}
        other => panic!("unexpected {other:?}"),
    }
}

/// A batch of an older format is handed back rather than misread.
#[test]
fn an_older_format_is_not_handled() {
    let encoded = encode(&[record(0, None, Some(b"value"))], Compression::None);
    let mut old = BytesMut::from(&encoded[..]);
    old[16] = 1;
    assert!(decode_lean(&old.freeze()).expect("decode").is_none());
}

#[test]
fn bytes_after_a_whole_batch_do_not_change_it() {
    let encoded = encode(&[record(5, Some(b"k"), Some(b"v"))], Compression::None);
    for cut in 0..encoded.len() {
        let mut wire = BytesMut::from(&encoded[..]);
        wire.extend_from_slice(&encoded[..cut]);
        let lean = decode_lean(&wire.freeze()).expect("decode").expect("handled");
        assert_eq!(lean.len(), 1, "cut at {cut}");
        assert_eq!(lean[0].records[0].offset, 5);
    }
}

/// Filtering by batch gives what filtering by record gives.
#[test]
fn batches_are_filtered_as_records_are() {
    let mut batches = Vec::new();
    for base in [0i64, 2, 4] {
        batches.extend(decoded(&[
            record(base, None, Some(b"a")),
            record(base + 1, None, Some(b"b")),
        ]));
    }
    let (kept, next) = filter_batches(batches, &[], 4, IsolationLevel::ReadCommitted, 1);
    let offsets: Vec<i64> = kept
        .iter()
        .flat_map(|b| b.records.iter().map(|r| r.offset))
        .collect();
    assert_eq!(offsets, vec![1, 2, 3]);
    assert_eq!(next, 4);
}

/// What is left after filtering can still be read: every range lies in its batch.
#[test]
fn what_filtering_leaves_can_be_read() {
    let batches = decoded(&[
        record(0, Some(b"k0"), Some(b"v0")),
        record(1, Some(b"k1"), Some(b"v1")),
    ]);
    let (kept, _) = filter_batches(batches, &[], 2, IsolationLevel::ReadCommitted, 1);
    assert_eq!(kept.len(), 1);
    let batch = &kept[0];
    assert_eq!(batch.records.len(), 1);
    assert_eq!(batch.key(&batch.records[0]), Some(Bytes::from_static(b"k1")));
    assert_eq!(batch.value(&batch.records[0]), Some(Bytes::from_static(b"v1")));
    assert_eq!(batch.control_type(&batch.records[0]), None);
}

/// Wherever a response is cut off, the whole batches before the cut are read and nothing
/// else is.
#[test]
fn a_cut_anywhere_loses_one_batch() {
    let first = encode(&[record(0, None, Some(b"a")), record(1, None, Some(b"b"))], Compression::None);
    let second = encode(&[record(2, Some(b"k"), Some(b"c"))], Compression::Gzip);
    for cut in 0..second.len() {
        let mut bytes = BytesMut::from(&first[..]);
        bytes.extend_from_slice(&second[..cut]);
        let read = decode_lean(&bytes.freeze()).expect("decode").expect("handled");
        assert_eq!(read.len(), 1, "cut at {cut}");
        assert_eq!(read[0].records.len(), 2, "cut at {cut}");
    }
    let mut bytes = BytesMut::from(&first[..]);
    bytes.extend_from_slice(&second);
    let read = decode_lean(&bytes.freeze()).expect("decode").expect("handled");
    assert_eq!(read.len(), 2);
}

/// The list of aborted transactions may come in any order, and twice.
#[test]
fn aborted_transactions_come_in_any_order() {
    let batch = |offset: i64, producer_id: i64| {
        let mut one = record(offset, None, Some(b"v"));
        one.transactional = true;
        one.producer_id = producer_id;
        decoded(&[one]).remove(0)
    };
    let first = AbortedTransaction { producer_id: 1, first_offset: 0 };
    let second = AbortedTransaction { producer_id: 2, first_offset: 1 };
    for aborted in [vec![first, second], vec![second, first], vec![second, first, second]] {
        let (kept, next) = filter_batches(
            vec![batch(0, 1), batch(1, 2), batch(2, 3)],
            &aborted,
            100,
            IsolationLevel::ReadCommitted,
            0,
        );
        let producers: Vec<i64> = kept.iter().map(|b| b.producer_id).collect();
        assert_eq!(producers, vec![3]);
        assert_eq!(next, 3);
    }
}

/// A batch that begins below the last stable offset and goes on past it is taken up to
/// there, and the rest of it is fetched again.
#[test]
fn a_batch_across_the_last_stable_offset_is_cut_there() {
    let batch = || {
        let mut first = record(3, None, Some(b"a"));
        first.offset = 3;
        decoded(&[first, record(4, None, Some(b"b")), record(5, None, Some(b"c"))])
    };
    let offsets = |kept: &[LeanBatch]| -> Vec<i64> {
        kept.iter().flat_map(|b| b.records.iter().map(|r| r.offset)).collect()
    };
    let (kept, next) = filter_batches(batch(), &[], 4, IsolationLevel::ReadCommitted, 3);
    assert_eq!((offsets(&kept), next), (vec![3], 4));
    let (kept, next) = filter_batches(batch(), &[], 4, IsolationLevel::ReadCommitted, 4);
    assert_eq!((offsets(&kept), next), (vec![], 4));
    let (kept, next) = filter_batches(batch(), &[], 6, IsolationLevel::ReadCommitted, 4);
    assert_eq!((offsets(&kept), next), (vec![4, 5], 6));
    let (kept, next) = filter_batches(batch(), &[], 4, IsolationLevel::ReadUncommitted, 3);
    assert_eq!((offsets(&kept), next), (vec![3, 4, 5], 6));
}

/// The same records, filtered one by one and batch by batch, come out the same.
#[test]
fn both_filters_agree() {
    let mut marker = record(4, Some(&[0, 0, 0, 0]), None);
    marker.control = true;
    marker.transactional = true;
    marker.producer_id = 1;
    let sent = |offset: i64, producer_id: i64| {
        let mut one = record(offset, None, Some(b"v"));
        one.transactional = true;
        one.producer_id = producer_id;
        one
    };
    let written = vec![
        vec![record(0, Some(b"k"), Some(b"v")), record(1, None, None)],
        vec![sent(2, 1), sent(3, 1)],
        vec![marker],
        vec![sent(5, 1), sent(6, 1)],
        vec![record(7, None, Some(b"v")), record(8, None, Some(b"v")), record(9, None, None)],
    ];
    let aborted = [AbortedTransaction { producer_id: 1, first_offset: 2 }];
    for isolation in [IsolationLevel::ReadCommitted, IsolationLevel::ReadUncommitted] {
        for last_stable in 0..12 {
            for from in 0..10 {
                let batches: Vec<LeanBatch> =
                    written.iter().map(|list| decoded(list).remove(0)).collect();
                let (kept, next) =
                    filter_batches(batches, &aborted, last_stable, isolation, from);
                let flat: Vec<consumer::Record> = written
                    .iter()
                    .flatten()
                    .map(|r| consumer::Record {
                        transactional: r.transactional,
                        control: r.control,
                        partition_leader_epoch: 0,
                        producer_id: r.producer_id,
                        producer_epoch: 0,
                        timestamp_type: consumer::TimestampType::Creation,
                        offset: r.offset,
                        sequence: 0,
                        timestamp: r.timestamp,
                        key: r.key.clone(),
                        value: r.value.clone(),
                        headers: Vec::new(),
                    })
                    .collect();
                let one_by_one = consumer::filter(flat, &aborted, last_stable, isolation, from);
                let lean: Vec<i64> =
                    kept.iter().flat_map(|b| b.records.iter().map(|r| r.offset)).collect();
                let full: Vec<i64> = one_by_one.records.iter().map(|r| r.offset).collect();
                assert_eq!(lean, full, "{isolation:?}, stable to {last_stable}, from {from}");
                assert_eq!(next, one_by_one.next_offset);
                assert!(kept.iter().all(|b| !b.records.is_empty() && !b.control));
            }
        }
    }
}

/// Headers are read back, whatever the batch was compressed with.
#[test]
fn headers_survive_every_codec() {
    for compression in [
        Compression::None,
        Compression::Gzip,
        Compression::Snappy,
        Compression::Lz4,
        Compression::Zstd,
    ] {
        let mut first = record(0, Some(b"k"), Some(b"v"));
        first.headers.insert("trace".to_owned().into(), Some(Bytes::from_static(b"abc")));
        first.headers.insert("empty".to_owned().into(), None);
        let encoded = encode(&[first, record(1, None, Some(b"w"))], compression);
        let lean = decode_lean(&encoded).expect("decode").expect("handled");
        let batch = &lean[0];
        let headers = batch.headers(&batch.records[0]).expect("headers");
        assert_eq!(
            headers,
            vec![
                (Bytes::from_static(b"trace"), Some(Bytes::from_static(b"abc"))),
                (Bytes::from_static(b"empty"), None),
            ]
        );
        assert!(batch.headers(&batch.records[1]).expect("headers").is_empty());
    }
}

fn varint(value: i64) -> Vec<u8> {
    let mut code = ((value << 1) ^ (value >> 63)) as u64;
    let mut out = Vec::new();
    while code >= 128 {
        out.push((code % 128) as u8 + 128);
        code /= 128;
    }
    out.push(code as u8);
    out
}

fn sized(bytes: Option<&[u8]>) -> Vec<u8> {
    match bytes {
        None => varint(-1),
        Some(b) => [varint(b.len() as i64), b.to_vec()].concat(),
    }
}

type Header<'a> = (&'a [u8], Option<&'a [u8]>);

fn entry(
    timestamp: i64,
    offset: i64,
    key: Option<&[u8]>,
    value: Option<&[u8]>,
    headers: &[Header],
) -> Vec<u8> {
    let mut fields = vec![0];
    fields.extend(varint(timestamp));
    fields.extend(varint(offset));
    fields.extend(sized(key));
    fields.extend(sized(value));
    fields.extend(varint(headers.len() as i64));
    for (name, content) in headers {
        fields.extend(sized(Some(name)));
        fields.extend(sized(*content));
    }
    [varint(fields.len() as i64), fields].concat()
}

fn written(base_offset: i64, base_timestamp: i64, producer_id: i64, entries: &[Vec<u8>]) -> Vec<u8> {
    let mut covered = vec![0, 16];
    covered.extend((entries.len() as i32 - 1).to_be_bytes());
    covered.extend(base_timestamp.to_be_bytes());
    covered.extend(base_timestamp.to_be_bytes());
    covered.extend(producer_id.to_be_bytes());
    covered.extend(3i16.to_be_bytes());
    covered.extend(5i32.to_be_bytes());
    covered.extend((entries.len() as i32).to_be_bytes());
    covered.extend(entries.concat());
    let mut out = base_offset.to_be_bytes().to_vec();
    out.extend((9 + covered.len() as i32).to_be_bytes());
    out.extend(1i32.to_be_bytes());
    out.push(2);
    out.extend(crc32c::crc32c(&covered).to_be_bytes());
    out.extend(covered);
    out
}

/// Batches laid out byte by byte, one behind the other, read back record by record.
#[test]
fn batches_written_by_hand_read_back() {
    let long = vec![7u8; 300];
    let mut bytes = written(
        40,
        1_000,
        -1,
        &[
            entry(-3, 0, None, Some(b"v"), &[]),
            entry(9, 2, Some(b""), None, &[(b"h", Some(b"x")), (b"", None), (b"e", Some(b""))]),
        ],
    );
    bytes.extend(written(-9, -1, 77, &[entry(0, 9, Some(&long), Some(b""), &[])]));
    let read = decode_lean(&Bytes::from(bytes)).expect("decode").expect("handled");
    let mut lines = Vec::new();
    for batch in &read {
        assert!(batch.transactional && !batch.control);
        for record in &batch.records {
            lines.push((
                record.offset,
                record.timestamp,
                batch.key(record).map(|b| b.to_vec()),
                batch.value(record).map(|b| b.to_vec()),
                batch.headers(record).expect("headers").len(),
                batch.producer_id,
            ));
        }
    }
    assert_eq!(
        lines,
        vec![
            (40, 997, None, Some(b"v".to_vec()), 0, -1),
            (42, 1_009, Some(Vec::new()), None, 3, -1),
            (0, -1, Some(long), Some(Vec::new()), 0, 77),
        ]
    );
    let headers = read[0].headers(&read[0].records[1]).expect("headers");
    assert_eq!(headers[0], (Bytes::from_static(b"h"), Some(Bytes::from_static(b"x"))));
    assert_eq!(headers[1], (Bytes::new(), None));
    assert_eq!(headers[2], (Bytes::from_static(b"e"), Some(Bytes::new())));
}
