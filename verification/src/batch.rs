//! Record batches as a producer writes them.
use crate::buffer;
use crate::consumer;
use crate::general;
use crate::records;
use crate::wire;
use bytes::{Bytes, BytesMut};
use kafka_protocol::records::{
    Compression, Record, RecordBatchEncoder, RecordEncodeOptions, TimestampType,
};
use vstd::prelude::*;

verus! {

/// How batches are compressed, as a whole.
#[derive(Debug, Clone, Copy, PartialEq, Eq, Structural)]
pub enum CompressionCodec {
    Uncompressed,
    Gzip,
    Snappy,
    Lz4,
    Zstd,
}

/// A record with everything that its batch says of it.
#[derive(Debug)]
pub struct Outgoing {
    pub transactional: bool,
    pub control: bool,
    pub partition_leader_epoch: i32,
    pub producer_id: i64,
    pub producer_epoch: i16,
    /// Counted from the batch's first record; the broker assigns the real one.
    pub offset: i64,
    pub sequence: i32,
    pub timestamp: i64,
    pub key: Option<Bytes>,
    pub value: Option<Bytes>,
}

/// What an [`Outgoing`] record stands for.
pub ghost struct Sealed {
    pub transactional: bool,
    pub control: bool,
    pub partition_leader_epoch: i32,
    pub producer_id: i64,
    pub producer_epoch: i16,
    pub offset: i64,
    pub sequence: i32,
    pub timestamp: i64,
    pub key: Option<Seq<u8>>,
    pub value: Option<Seq<u8>>,
}

impl View for Outgoing {
    type V = Sealed;

    open spec fn view(&self) -> Sealed {
        Sealed {
            transactional: self.transactional,
            control: self.control,
            partition_leader_epoch: self.partition_leader_epoch,
            producer_id: self.producer_id,
            producer_epoch: self.producer_epoch,
            offset: self.offset,
            sequence: self.sequence,
            timestamp: self.timestamp,
            key: records::optional_contents(self.key),
            value: records::optional_contents(self.value),
        }
    }
}

/// What a list of records stands for.
pub open spec fn sealed_of(records: Seq<Outgoing>) -> Seq<Sealed> {
    Seq::new(records.len(), |i: int| records[i]@)
}

/// Whether records make up one batch: they agree in what the batch says once, and
/// their offsets and sequences count up together.
pub open spec fn one_batch(records: Seq<Sealed>) -> bool {
    &&& 0 < records.len() <= i32::MAX
    &&& forall|i: int|
        0 <= i < records.len() ==> {
            let r = #[trigger] records[i];
            &&& r.transactional == records[0].transactional
            &&& r.control == records[0].control
            &&& r.partition_leader_epoch == records[0].partition_leader_epoch
            &&& r.producer_id == records[0].producer_id
            &&& r.producer_epoch == records[0].producer_epoch
            &&& r.offset == i
            &&& r.sequence == records[0].sequence + i
        }
}

/// Whether no two timestamps are further apart than 64 bits can say.
pub open spec fn timestamps_subtract(records: Seq<Sealed>) -> bool {
    forall|i: int, j: int|
        0 <= i < records.len() && 0 <= j < records.len() ==> (#[trigger] records[i]).timestamp - (
        #[trigger] records[j]).timestamp <= i64::MAX
}

/// Whether no two timestamps are further apart than a batch can say.
pub open spec fn timestamps_close(records: Seq<Sealed>) -> bool {
    forall|i: int, j: int|
        0 <= i < records.len() && 0 <= j < records.len() ==> (#[trigger] records[i]).timestamp - (
        #[trigger] records[j]).timestamp <= i32::MAX
}

pub open spec fn optional_len(bytes: Option<Seq<u8>>) -> nat {
    match bytes {
        Some(b) => b.len(),
        None => 0,
    }
}

/// An upper bound on what the first `n` records take, uncompressed: keys, values, and
/// at most 32 bytes of lengths and deltas for each.
pub open spec fn bulk(records: Seq<Sealed>, n: nat) -> nat
    decreases n,
{
    if n == 0 {
        0
    } else {
        bulk(records, (n - 1) as nat) + optional_len(records[n - 1].key) + optional_len(
            records[n - 1].value,
        ) + 32
    }
}

/// Where a batch's producer epoch stands.
pub const PRODUCER_EPOCH: usize = 51;

/// Where a batch's first sequence stands.
pub const BASE_SEQUENCE: usize = 53;

/// Whether a batch's header says whose it is, whether it is part of a transaction, and
/// which sequences it takes.
pub open spec fn stamped(bytes: Seq<u8>, records: Seq<Sealed>) -> bool {
    &&& bytes.len() >= records::HEADER_LEN
    &&& wire::i64_of(bytes, records::PRODUCER_ID as int) == records[0].producer_id
    &&& wire::i16_of(bytes, PRODUCER_EPOCH as int) == records[0].producer_epoch
    &&& wire::i32_of(bytes, BASE_SEQUENCE as int) == records[0].sequence
    &&& wire::i32_of(bytes, records::RECORD_COUNT as int) == records.len()
    &&& ((bytes[records::FLAGS as int] / 16) % 2 == 1) == records[0].transactional
    &&& ((bytes[records::FLAGS as int] / 32) % 2 == 1) == records[0].control
}

/// Whether a batch that was read holds the records that were written. A producer writes them
/// without headers; how records with headers are laid out, and that they read back, is in
/// [`crate::layout`].
pub open spec fn holds(batch: records::Batch, records: Seq<Sealed>) -> bool {
    &&& batch.base_offset == 0
    &&& batch.producer_id == records[0].producer_id
    &&& batch.transactional == records[0].transactional
    &&& batch.control == records[0].control
    &&& batch.records.len() == records.len()
    &&& forall|i: int|
        0 <= i < records.len() ==> {
            let read = #[trigger] batch.records[i];
            &&& read.offset == i
            &&& read.timestamp == records[i].timestamp
            &&& records::range_of(batch.body, read.key) == records[i].key
            &&& records::range_of(batch.body, read.value) == records[i].value
            &&& read.header_count == 0
        }
}

/// The records that were written, as the general reader gives them.
pub open spec fn in_full(records: Seq<Sealed>) -> Seq<consumer::FullRecord> {
    Seq::new(
        records.len(),
        |i: int|
            consumer::FullRecord {
                transactional: records[i].transactional,
                control: records[i].control,
                partition_leader_epoch: records[i].partition_leader_epoch,
                producer_id: records[i].producer_id,
                producer_epoch: records[i].producer_epoch,
                timestamp_type: consumer::TimestampType::Creation,
                offset: records[i].offset,
                sequence: records[i].sequence,
                timestamp: records[i].timestamp,
                key: records[i].key,
                value: records[i].value,
                headers: Seq::empty(),
            },
    )
}

/// Whether reading a buffer gives one batch that holds these records, lean or the general
/// way.
pub open spec fn reads_back(bytes: Seq<u8>, records: Seq<Sealed>) -> bool {
    &&& records::batches_from(bytes, 0) matches Ok(Some(read))
    &&& read.len() == 1
    &&& holds(read[0], records)
    &&& general::decoded(bytes) == Ok::<Seq<consumer::FullRecord>, Seq<char>>(in_full(records))
}

/// The same bytes, read two ways, agree: the lean reader and the general one give the same
/// records of a batch that was written.
pub proof fn law_both_readers_agree(bytes: Seq<u8>, records: Seq<Sealed>)
    requires
        one_batch(records),
        reads_back(bytes, records),
    ensures
        records::batches_from(bytes, 0) matches Ok(Some(lean)) && (general::decoded(
            bytes,
        ) matches Ok(full) && {
            &&& lean.len() == 1
            &&& lean[0].records.len() == full.len()
            &&& forall|i: int|
                0 <= i < full.len() ==> {
                    let read = #[trigger] lean[0].records[i];
                    &&& read.offset == full[i].offset
                    &&& read.timestamp == full[i].timestamp
                    &&& records::range_of(lean[0].body, read.key) == full[i].key
                    &&& records::range_of(lean[0].body, read.value) == full[i].value
                    &&& lean[0].producer_id == full[i].producer_id
                    &&& lean[0].transactional == full[i].transactional
                    &&& lean[0].control == full[i].control
                    &&& read.header_count == full[i].headers.len()
                }
        }),
{
    let full = in_full(records);
    assert forall|i: int| 0 <= i < records.len() implies full[i].offset == i && full[i].producer_id
        == records[0].producer_id && full[i].transactional == records[0].transactional
        && full[i].control == records[0].control by {
        assert(records[i].offset == i);
    }
}

/// How much records may take, uncompressed, for the statements below that are about
/// batches of ordinary size.
pub const ORDINARY_BULK: usize = 0x4000_0000;

/// The bytes of a version 2 batch of records without headers, as
/// `kafka_protocol::records::RecordBatchEncoder::encode` writes it, or what it says where it
/// refuses.
pub uninterp spec fn encoded(records: Seq<Sealed>, codec: CompressionCodec) -> Result<
    Seq<u8>,
    Seq<char>,
>;

/// `kafka_protocol::records::RecordBatchEncoder::encode`, version 2, on records without
/// headers whose timestamps the client set.
///
/// What it writes, or says where it refuses, is named. Beside that: it refuses timestamps that are too far apart
/// for a batch; without compression it accepts every batch that is small enough; the
/// header says whose the batch is, whether it is part of a transaction or a control batch,
/// and which sequences it takes; and the lean reader, and
/// `kafka_protocol::records::RecordBatchDecoder::decode`, read these records back.
#[verifier::external_body]
pub(crate) fn encode(records: Vec<Outgoing>, codec: CompressionCodec) -> (bytes: Result<
    Bytes,
    String,
>)
    requires
        one_batch(sealed_of(records@)),
        timestamps_subtract(sealed_of(records@)),
    ensures
        records::contents_or_text(bytes) == encoded(sealed_of(records@), codec),
        bytes is Ok ==> timestamps_close(sealed_of(records@)),
        codec == CompressionCodec::Uncompressed && timestamps_close(sealed_of(records@)) && bulk(
            sealed_of(records@),
            records@.len(),
        ) <= ORDINARY_BULK ==> bytes is Ok,
        bytes matches Ok(b) ==> stamped(buffer::contents(b), sealed_of(records@)),
        bytes is Ok && bulk(sealed_of(records@), records@.len()) <= ORDINARY_BULK ==> reads_back(
            buffer::contents(bytes->Ok_0),
            sealed_of(records@),
        ),
{
    let list: Vec<Record> = records.into_iter().map(|Outgoing {
        transactional, control, partition_leader_epoch, producer_id, producer_epoch, offset,
        sequence, timestamp, key, value,
    }| Record {
        transactional, control, partition_leader_epoch, producer_id, producer_epoch, offset,
        sequence, timestamp, key, value, timestamp_type: TimestampType::Creation,
        headers: Default::default(),
    }).collect();
    let compression = match codec {
        CompressionCodec::Uncompressed => Compression::None, CompressionCodec::Gzip => Compression::Gzip,
        CompressionCodec::Snappy => Compression::Snappy, CompressionCodec::Lz4 => Compression::Lz4,
        CompressionCodec::Zstd => Compression::Zstd,
    };
    let (mut buf, options) = (BytesMut::new(), RecordEncodeOptions { version: 2, compression });
    RecordBatchEncoder::encode(&mut buf, &list, &options).map(|()| buf.freeze()).map_err(|e| e.to_string())
}

} // verus!
