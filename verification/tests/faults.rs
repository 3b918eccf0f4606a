use barnabas::blobs::{
    decode_assignment, decode_subscription, encode_assignment, encode_subscription, read_version,
};
use barnabas::client::Error;
use barnabas::codec::decompress;
use barnabas::error::{self, CodecFault};
use barnabas::general::decode_records;
use barnabas::group::{Subscription, TopicPartition};
use barnabas::producer::ProducerIdentity;
use barnabas::sender::{Producer, ProducerRecord};
use bytes::Bytes;
use kafka_protocol::messages::ConsumerProtocolSubscription;
use kafka_protocol::protocol::Decodable;
use std::io::Read;

fn fault_of<T: std::fmt::Debug>(result: Result<T, Error>) -> CodecFault {
    match result {
        Err(Error::Core(error::Error::Codec(fault))) => fault,
        other => panic!("{other:?}"),
    }
}

#[test]
fn a_message_without_a_version_says_so() {
    let short = "consumer protocol blob is too short for its version";
    assert_eq!(fault_of(read_version(&[0])).message(), short);
    for bytes in [&[][..], &[0][..]] {
        let message = Bytes::copy_from_slice(bytes);
        assert_eq!(fault_of(decode_subscription("m", &message)), CodecFault::Version);
        assert_eq!(fault_of(decode_assignment(&message)).message(), short);
    }
}

#[test]
fn a_message_that_does_not_parse_says_which_and_why() {
    let unsupported = "specified version not supported by this message type";
    let message = Bytes::from_static(&[0, 9, 0, 0, 0, 0]);
    assert_eq!(
        fault_of(decode_subscription("m", &message)).message(),
        format!("subscription: {unsupported}")
    );
    assert_eq!(
        fault_of(decode_assignment(&message)),
        CodecFault::Assignment(unsupported.to_owned())
    );

    let why = ConsumerProtocolSubscription::decode(&mut Bytes::from_static(&[0]), 2)
        .unwrap_err()
        .to_string();
    let cut = Bytes::from_static(&[0, 2, 0]);
    assert_eq!(fault_of(decode_subscription("m", &cut)), CodecFault::Subscription(why.clone()));
    assert_eq!(fault_of(decode_assignment(&cut)).message(), format!("assignment: {why}"));
}

#[test]
fn a_message_that_cannot_be_written_says_which_and_why() {
    let long = "x".repeat(40_000);
    let subscription = Subscription {
        member_id: "m".to_owned(),
        topics: vec![long.clone()],
        owned: Vec::new(),
        generation: 1,
    };
    let fault = fault_of(encode_subscription(&subscription));
    assert!(matches!(&fault, CodecFault::Subscription(said) if !said.is_empty()), "{fault:?}");
    assert!(fault.message().starts_with("subscription: "));
    let fault = fault_of(encode_assignment(&vec![TopicPartition::new(&long, 0)]));
    assert!(matches!(&fault, CodecFault::Assignment(said) if !said.is_empty()), "{fault:?}");
}

#[test]
fn a_codec_says_what_is_wrong() {
    let junk = b"this is not compressed at all";
    let gzip = flate2::read::GzDecoder::new(&junk[..])
        .read_to_end(&mut Vec::new())
        .unwrap_err()
        .to_string();
    assert_eq!(decompress(1, junk), Err(CodecFault::Gzip(gzip.clone())));
    assert_eq!(decompress(1, junk).unwrap_err().message(), format!("gzip: {gzip}"));
    let snappy = snap::raw::Decoder::new().decompress_vec(junk).unwrap_err().to_string();
    assert_eq!(decompress(2, junk).unwrap_err().message(), format!("snappy: {snappy}"));
    let lz4 = lz4::Decoder::new(&junk[..])
        .expect("decoder")
        .read_to_end(&mut Vec::new())
        .unwrap_err()
        .to_string();
    assert_eq!(decompress(3, junk).unwrap_err().message(), format!("lz4: {lz4}"));
    let zstd = zstd::stream::copy_decode(&junk[..], &mut Vec::new()).unwrap_err().to_string();
    assert_eq!(decompress(4, junk).unwrap_err().message(), format!("zstd: {zstd}"));
    assert_eq!(decompress(6, junk).unwrap_err().message(), "unknown compression codec 6");
}

#[test]
fn a_snappy_frame_says_where_it_is_cut() {
    let mut frame = vec![0x82, 83, 78, 65, 80, 80, 89, 0, 0, 0, 0, 1, 0, 0, 0, 1];
    frame.extend([0, 0]);
    assert_eq!(decompress(2, &frame).unwrap_err().message(), "snappy block length");
    frame.extend([0, 9, 1]);
    assert_eq!(decompress(2, &frame).unwrap_err().message(), "snappy block overruns");
}

#[test]
fn a_batch_that_the_decoder_refuses_says_why() {
    let mut bytes = vec![0u8; 61];
    bytes[8..12].copy_from_slice(&49i32.to_be_bytes());
    bytes[16] = 1;
    assert_eq!(
        fault_of(decode_records(&Bytes::from(bytes.clone()))).message(),
        "decode record batch: message sets v1 are unsupported"
    );
    bytes[16] = 2;
    let actual = crc32c::crc32c(&bytes[21..]);
    let refused = format!("decode record batch: Cyclic redundancy check failed (0 != {actual})");
    assert_eq!(fault_of(decode_records(&Bytes::from(bytes.clone()))).message(), refused);
    // The first offset is at the end of what it can be: the checksum is still looked at first.
    bytes[0..8].copy_from_slice(&i64::MAX.to_be_bytes());
    assert_eq!(fault_of(decode_records(&Bytes::from(bytes.clone()))).message(), refused);
    bytes[8..12].copy_from_slice(&(-3i32).to_be_bytes());
    assert_eq!(
        fault_of(decode_records(&Bytes::from(bytes))).message(),
        "record batch declares a negative length: -3"
    );
}

#[test]
fn a_batch_that_cannot_be_encoded_says_why() {
    let mut producer = Producer::idempotent();
    producer.on_init_producer_id(ProducerIdentity { id: 9, epoch: 2 });
    let at = |timestamp: i64| {
        let mut record = ProducerRecord::new(None, Some(Bytes::from_static(b"v")));
        record.timestamp = Some(timestamp);
        record
    };
    let fault = fault_of(producer.enqueue("t", 0, &[at(0), at(i64::from(i32::MAX) + 2)], 0));
    assert!(matches!(&fault, CodecFault::Encode(said) if !said.is_empty()), "{fault:?}");
    assert!(fault.message().starts_with("encode record batch: "));
    let fault = fault_of(producer.enqueue("t", 0, &[at(i64::MIN), at(i64::MAX)], 0));
    assert_eq!(
        fault.message(),
        "encode record batch: timestamps within the batch are too far apart"
    );
}

/// Every fault that carries nothing from elsewhere has its own words.
#[test]
fn every_fault_has_its_words() {
    for (fault, words) in [
        (
            CodecFault::Crc { expected: 0, actual: 0xdead_beef },
            "record batch crc: expected 0x0, got 0xdeadbeef",
        ),
        (CodecFault::RecordLength, "record length"),
        (CodecFault::RecordOverrun, "record overruns its batch"),
        (CodecFault::TimestampDelta, "timestamp delta"),
        (CodecFault::OffsetDelta, "offset delta"),
        (CodecFault::KeyLength, "key length"),
        (CodecFault::ValueLength, "value length"),
        (CodecFault::HeaderCount, "header count"),
        (CodecFault::HeaderBlock, "header block"),
        (CodecFault::HeaderKeyLength, "header key length"),
        (CodecFault::HeaderValueLength, "header value length"),
        (
            CodecFault::OutOfRange,
            "decode record batch: an offset or a timestamp leaves 64 bits",
        ),
        (
            CodecFault::ControlBatchLength,
            "decode record batch: a control batch is too large",
        ),
    ] {
        assert_eq!(fault.message(), words);
        assert_eq!(error::Error::Codec(fault).message(), words);
    }
}
