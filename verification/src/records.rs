//! A record-batch reader that does not build a record per record.
//!
//! Producer id, flags and the like belong to a batch and are held once per batch. A
//! record is an offset, a timestamp and ranges into the batch's buffer; headers are
//! a byte range that is parsed on demand.
use crate::buffer;
use crate::codec;
use crate::consumer;
use crate::consumer::{AbortTracker, AbortedTransaction, IsolationLevel};
use crate::error;
use crate::error::{CodecFault, Error, Flaw};
use crate::layout;
use crate::wire;
use bytes::Bytes;
use vstd::prelude::*;
use vstd::slice::slice_subrange;

verus! {

/// Where a batch's length field stands. The length counts what follows it.
pub const LENGTH: usize = 8;

pub const MAGIC: usize = 16;

pub const CRC: usize = 17;

/// The checksum covers everything from here to the end of the batch.
pub const CRC_FROM: usize = 21;

/// The low byte of the attributes: the codec in bits 0 to 2, transactional in bit
/// 4, control in bit 5.
pub const FLAGS: usize = 22;

pub const BASE_TIMESTAMP: usize = 27;

pub const PRODUCER_ID: usize = 43;

pub const RECORD_COUNT: usize = 57;

/// The length of the header: where the records begin.
pub const HEADER_LEN: usize = 61;

/// A range's start that stands for "absent", which is how a null key differs from
/// an empty one.
pub const ABSENT: u32 = 0xffff_ffff;

/// One record: where it is, not what it contains.
#[derive(Debug, Clone, Copy)]
pub struct LeanRecord {
    pub offset: i64,
    pub timestamp: i64,
    /// Where the key begins in the batch's buffer, and its length.
    pub key: (u32, u32),
    /// Where the value begins in the batch's buffer, and its length.
    pub value: (u32, u32),
    /// Where the header block begins in the batch's buffer, and its length.
    pub headers: (u32, u32),
    pub header_count: u32,
}

/// One batch, with the facts that belong to the batch held once.
#[derive(Debug)]
pub struct LeanBatch {
    /// The records section, that keys, values and headers are sliced from.
    pub buffer: Bytes,
    pub base_offset: i64,
    pub producer_id: i64,
    pub transactional: bool,
    /// A control batch carries markers, not caller data.
    pub control: bool,
    pub records: Vec<LeanRecord>,
}

/// What a [`LeanBatch`] stands for.
pub ghost struct Batch {
    pub body: Seq<u8>,
    pub base_offset: i64,
    pub producer_id: i64,
    pub transactional: bool,
    pub control: bool,
    pub records: Seq<LeanRecord>,
}

impl View for LeanBatch {
    type V = Batch;

    open spec fn view(&self) -> Batch {
        Batch {
            body: buffer::contents(self.buffer),
            base_offset: self.base_offset,
            producer_id: self.producer_id,
            transactional: self.transactional,
            control: self.control,
            records: self.records@,
        }
    }
}

impl Clone for LeanBatch {
    fn clone(&self) -> (copy: Self)
        ensures
            copy@ == self@,
    {
        let records = self.records.clone();
        assert(records@ =~= self.records@);
        LeanBatch {
            buffer: self.buffer.clone(),
            base_offset: self.base_offset,
            producer_id: self.producer_id,
            transactional: self.transactional,
            control: self.control,
            records,
        }
    }
}

/// Whether a range is absent or lies inside `n` bytes.
pub open spec fn range_fits(range: (u32, u32), n: nat) -> bool {
    range.0 == ABSENT || range.0 + range.1 <= n
}

/// The bytes of a range, `None` where it is absent.
pub open spec fn range_of(body: Seq<u8>, range: (u32, u32)) -> Option<Seq<u8>> {
    if range.0 == ABSENT {
        None
    } else {
        Some(body.subrange(range.0 as int, range.0 + range.1))
    }
}

/// The bytes of an optional buffer.
pub open spec fn optional_contents(buffer: Option<Bytes>) -> Option<Seq<u8>> {
    match buffer {
        Some(b) => Some(buffer::contents(b)),
        None => None,
    }
}

/// What a buffer, or the text of why there is none, stands for.
pub open spec fn contents_or_text(buffer: Result<Bytes, String>) -> Result<Seq<u8>, Seq<char>> {
    match buffer {
        Ok(b) => Ok(buffer::contents(b)),
        Err(said) => Err(said@),
    }
}

/// The marker type that a control record's key holds, `None` for a short or absent
/// key.
pub open spec fn marker_type(key: Option<Seq<u8>>) -> Option<i16> {
    match key {
        None => None,
        Some(key) => if key.len() < 4 {
            None
        } else {
            Some(wire::i16_of(key, 2))
        },
    }
}

impl Batch {
    /// Whether keys and values of this batch's records lie inside its body.
    pub open spec fn well_formed(self) -> bool {
        forall|i: int|
            #![trigger self.records[i]]
            0 <= i < self.records.len() ==> range_fits(self.records[i].key, self.body.len())
                && range_fits(self.records[i].value, self.body.len())
    }
}

impl LeanBatch {
    /// This record's key, as a slice of the batch buffer.
    pub fn key(&self, record: &LeanRecord) -> (key: Option<Bytes>)
        requires
            range_fits(record.key, self@.body.len()),
        ensures
            optional_contents(key) == range_of(self@.body, record.key),
    {
        self.slice(record.key)
    }

    /// This record's value, as a slice of the batch buffer. The slice is made here,
    /// so a record that nobody looks at costs no reference count.
    pub fn value(&self, record: &LeanRecord) -> (value: Option<Bytes>)
        requires
            range_fits(record.value, self@.body.len()),
        ensures
            optional_contents(value) == range_of(self@.body, record.value),
    {
        self.slice(record.value)
    }

    fn slice(&self, range: (u32, u32)) -> (part: Option<Bytes>)
        requires
            range_fits(range, self@.body.len()),
        ensures
            optional_contents(part) == range_of(self@.body, range),
    {
        if range.0 == ABSENT {
            return None;
        }
        let size: usize = buffer::len(&self.buffer);
        Some(buffer::narrow(&self.buffer, range.0 as usize, range.0 as usize + range.1 as usize))
    }

    /// The control-marker type of a record of a control batch: 0 is abort. It
    /// stands in the marker's key.
    pub fn control_type(&self, record: &LeanRecord) -> (kind: Option<i16>)
        requires
            range_fits(record.key, self@.body.len()),
        ensures
            kind == marker_type(range_of(self@.body, record.key)),
    {
        match self.slice(record.key) {
            None => None,
            Some(key) => {
                let bytes = buffer::as_slice(&key);
                if bytes.len() < 4 {
                    None
                } else {
                    wire::i16_at(bytes, 2)
                }
            },
        }
    }
}

/// The header that a block holds at `pos`: the ranges of its key and value in the
/// block, and where the next one begins.
pub open spec fn header_at(block: Seq<u8>, pos: int) -> Result<
    ((int, int), Option<(int, int)>, int),
    Flaw,
> {
    match wire::varint_at(block, pos) {
        None => Err(Flaw::HeaderKeyLength),
        Some((key_len, key_at)) => {
            let key_end = key_at + (if key_len > 0 {
                key_len as int
            } else {
                0
            });
            match wire::varint_at(block, key_end) {
                None => Err(Flaw::HeaderValueLength),
                Some((value_len, value_at)) => if value_len < 0 {
                    Ok(((key_at, key_end), None, value_at))
                } else if value_at + value_len > block.len() {
                    Err(Flaw::HeaderValueLength)
                } else {
                    Ok(
                        (
                            (key_at, key_end),
                            Some((value_at, value_at + value_len)),
                            value_at + value_len,
                        ),
                    )
                },
            }
        },
    }
}

/// The header of a block at `pos`: the ranges of its key and value, and where the
/// next header begins. A negative key length reads as zero, a negative value length
/// as no value.
pub fn next_header(block: &[u8], pos: usize) -> (header: Result<
    ((usize, usize), Option<(usize, usize)>, usize),
    CodecFault,
>)
    ensures
        match header {
            Ok((key, value, next)) => {
                &&& key.0 <= key.1 <= next <= block@.len()
                &&& value matches Some(v) ==> v.0 <= v.1 <= block@.len()
                &&& header_at(block@, pos as int) == Ok::<
                    ((int, int), Option<(int, int)>, int),
                    Flaw,
                >(
                    (
                        (key.0 as int, key.1 as int),
                        match value {
                            None => None,
                            Some(v) => Some((v.0 as int, v.1 as int)),
                        },
                        next as int,
                    ),
                )
            },
            Err(e) => header_at(block@, pos as int) == Err::<
                ((int, int), Option<(int, int)>, int),
                Flaw,
            >(e@),
        },
{
    let size: usize = block.len();
    let mut at: usize = pos;
    proof {
        wire::lemma_varint_at(block@, pos as int);
    }
    let key_len: i64 = match wire::varint(block, &mut at) {
        None => return Err(CodecFault::HeaderKeyLength),
        Some(n) => n,
    };
    let key_at: usize = at;
    if key_len > 0 {
        if key_len as u64 > (size - at) as u64 {
            proof {
                wire::lemma_varint_at(block@, key_at + key_len);
            }
            return Err(CodecFault::HeaderValueLength);
        }
        at = at + key_len as usize;
    }
    let key_end: usize = at;
    proof {
        wire::lemma_varint_at(block@, key_end as int);
    }
    let value_len: i64 = match wire::varint(block, &mut at) {
        None => return Err(CodecFault::HeaderValueLength),
        Some(n) => n,
    };
    if value_len < 0 {
        return Ok(((key_at, key_end), None, at));
    }
    if value_len as u64 > (size - at) as u64 {
        return Err(CodecFault::HeaderValueLength);
    }
    let value_end: usize = at + value_len as usize;
    Ok(((key_at, key_end), Some((at, value_end)), value_end))
}

/// The `count` headers of a block from `pos` on.
pub open spec fn headers_from(block: Seq<u8>, pos: int, count: nat) -> Result<
    Seq<(Seq<u8>, Option<Seq<u8>>)>,
    Flaw,
>
    decreases count,
{
    if count == 0 {
        Ok(Seq::empty())
    } else {
        match header_at(block, pos) {
            Err(e) => Err(e),
            Ok((key, value, next)) => {
                let first = (
                    block.subrange(key.0, key.1),
                    match value {
                        None => None,
                        Some(v) => Some(block.subrange(v.0, v.1)),
                    },
                );
                error::followed_by(seq![first], headers_from(block, next, (count - 1) as nat))
            },
        }
    }
}

/// The headers that a record of `body` carries.
pub open spec fn headers_of(body: Seq<u8>, record: LeanRecord) -> Result<
    Seq<(Seq<u8>, Option<Seq<u8>>)>,
    Flaw,
> {
    let at = record.headers.0 as int;
    let end = at + record.headers.1;
    if record.header_count == 0 {
        Ok(Seq::empty())
    } else if end > body.len() {
        Err(Flaw::HeaderBlock)
    } else {
        headers_from(body.subrange(at, end), 0, record.header_count as nat)
    }
}

/// The contents of a list of headers.
pub open spec fn header_contents(headers: Seq<(Bytes, Option<Bytes>)>) -> Seq<
    (Seq<u8>, Option<Seq<u8>>),
> {
    headers.map_values(
        |h: (Bytes, Option<Bytes>)| (buffer::contents(h.0), optional_contents(h.1)),
    )
}

impl LeanBatch {
    /// This record's headers, parsed on demand: none where there are none, and an
    /// error where the header block is malformed.
    #[verifier::spinoff_prover]
    #[verifier::rlimit(40)]
    pub fn headers(&self, record: &LeanRecord) -> (headers: Result<
        Vec<(Bytes, Option<Bytes>)>,
        Error,
    >)
        ensures
            match headers {
                Ok(v) => headers_of(self@.body, *record) == Ok::<
                    Seq<(Seq<u8>, Option<Seq<u8>>)>,
                    Flaw,
                >(header_contents(v@)),
                Err(Error::Codec(e)) => headers_of(self@.body, *record) == Err::<
                    Seq<(Seq<u8>, Option<Seq<u8>>)>,
                    Flaw,
                >(e@),
            },
    {
        let mut out: Vec<(Bytes, Option<Bytes>)> = Vec::new();
        if record.header_count == 0 {
            assert(header_contents(out@) =~= Seq::empty());
            return Ok(out);
        }
        let size: usize = buffer::len(&self.buffer);
        if (record.headers.0 as u64) + (record.headers.1 as u64) > size as u64 {
            return Err(Error::Codec(CodecFault::HeaderBlock));
        }
        let at: usize = record.headers.0 as usize;
        let end: usize = at + record.headers.1 as usize;
        let whole = buffer::as_slice(&self.buffer);
        let block = slice_subrange(whole, at, end);
        let ghost body = self@.body;
        let mut pos: usize = 0;
        let mut done: u32 = 0;
        proof {
            assert(header_contents(out@) =~= Seq::empty());
            error::lemma_followed_by_nothing(
                header_contents(out@),
                headers_from(block@, 0, record.header_count as nat),
            );
        }
        while done < record.header_count
            invariant
                done <= record.header_count,
                record.header_count > 0,
                body == buffer::contents(self.buffer),
                body == self@.body,
                size == body.len(),
                at == record.headers.0,
                end == at + record.headers.1,
                end <= body.len(),
                block@ == body.subrange(at as int, end as int),
                pos <= block@.len(),
                headers_of(body, *record) == error::followed_by(
                    header_contents(out@),
                    headers_from(block@, pos as int, (record.header_count - done) as nat),
                ),
            decreases record.header_count - done,
        {
            let ghost before = header_contents(out@);
            let ghost left = (record.header_count - done) as nat;
            match next_header(block, pos) {
                Err(e) => return Err(Error::Codec(e)),
                Ok((key_range, value_range, next)) => {
                    let key = buffer::narrow(&self.buffer, at + key_range.0, at + key_range.1);
                    assert(buffer::contents(key) =~= block@.subrange(
                        key_range.0 as int,
                        key_range.1 as int,
                    ));
                    let value: Option<Bytes> = match value_range {
                        None => None,
                        Some(v) => {
                            let part = buffer::narrow(&self.buffer, at + v.0, at + v.1);
                            assert(buffer::contents(part) =~= block@.subrange(v.0 as int, v.1 as int));
                            Some(part)
                        },
                    };
                    out.push((key, value));
                    pos = next;
                    done = done + 1;
                    proof {
                        let first = (buffer::contents(key), optional_contents(value));
                        assert(header_contents(out@) =~= before.push(first));
                        error::lemma_followed_by(
                            before,
                            first,
                            headers_from(block@, next as int, (left - 1) as nat),
                        );
                    }
                },
            }
        }
        proof {
            error::lemma_followed_by_nothing(
                header_contents(out@),
                headers_from(block@, pos as int, 0),
            );
        }
        Ok(out)
    }
}

/// The larger of an encoded length and zero.
pub open spec fn at_least_zero(len: i64) -> int {
    if len > 0 {
        len as int
    } else {
        0
    }
}

/// The range of an encoded length that begins at `at`: absent where the length is
/// negative. A position is kept in 32 bits.
pub open spec fn range_at(at: int, len: i64) -> (u32, u32) {
    if len >= 0 {
        (at as u32, len as u32)
    } else {
        (ABSENT, 0)
    }
}

/// The record that a records section holds at `pos`, and where the next one begins.
///
/// A record is its length, one byte of attributes, the timestamp and offset deltas,
/// key and value each behind a length, and its headers behind their count.
pub open spec fn record_at(
    body: Seq<u8>,
    pos: int,
    base_offset: i64,
    base_timestamp: i64,
) -> Result<(LeanRecord, int), Flaw> {
    match wire::varint_at(body, pos) {
        None => Err(Flaw::RecordLength),
        Some((len, start)) => {
            let end = start + at_least_zero(len);
            if end > body.len() {
                Err(Flaw::RecordOverrun)
            } else {
                match wire::varint_at(body, start + 1) {
                    None => Err(Flaw::TimestampDelta),
                    Some((timestamp_delta, p)) => fields_at(
                        body,
                        p,
                        end,
                        base_offset,
                        base_timestamp.wrapping_add(timestamp_delta),
                    ),
                }
            }
        },
    }
}

/// The part of a record behind its timestamp delta, which begins at `p`. The record
/// ends at `end`.
pub open spec fn fields_at(
    body: Seq<u8>,
    p: int,
    end: int,
    base_offset: i64,
    timestamp: i64,
) -> Result<(LeanRecord, int), Flaw> {
    match wire::varint_at(body, p) {
        None => Err(Flaw::OffsetDelta),
        Some((offset_delta, p)) => match wire::varint_at(body, p) {
            None => Err(Flaw::KeyLength),
            Some((key_len, key_at)) => match wire::varint_at(
                body,
                key_at + at_least_zero(key_len),
            ) {
                None => Err(Flaw::ValueLength),
                Some((value_len, value_at)) => match wire::varint_at(
                    body,
                    value_at + at_least_zero(value_len),
                ) {
                    None => Err(Flaw::HeaderCount),
                    Some((count, headers_at)) => Ok(
                        (
                            LeanRecord {
                                offset: base_offset.wrapping_add(offset_delta),
                                timestamp,
                                key: range_at(key_at, key_len),
                                value: range_at(value_at, value_len),
                                headers: (
                                    headers_at as u32,
                                    (if end > headers_at {
                                        end - headers_at
                                    } else {
                                        0
                                    }) as u32,
                                ),
                                header_count: at_least_zero(count) as u32,
                            },
                            end,
                        ),
                    ),
                },
            },
        },
    }
}

/// Reads an encoded length at `pos`, and gives it with the positions where what it
/// measures begins and ends. The end may lie past the buffer's.
fn sized(buf: &[u8], pos: usize) -> (field: Option<(i64, usize, usize)>)
    ensures
        match field {
            None => wire::varint_at(buf@, pos as int) is None,
            Some((len, from, to)) => {
                &&& wire::varint_at(buf@, pos as int) == Some((len, from as int))
                &&& pos < from <= buf@.len()
                &&& from <= to
                &&& to == from + at_least_zero(len) || (to >= buf@.len() && from + at_least_zero(
                    len,
                ) >= buf@.len())
            },
        },
{
    let size: usize = buf.len();
    let mut at: usize = pos;
    proof {
        wire::lemma_varint_at(buf@, pos as int);
    }
    match wire::varint(buf, &mut at) {
        None => None,
        Some(len) => {
            let to: usize = if len <= 0 {
                at
            } else if len as u64 > (size - at) as u64 {
                size
            } else {
                at + len as usize
            };
            Some((len, at, to))
        },
    }
}

fn fields(buf: &[u8], pos: usize, end: usize, base_offset: i64, timestamp: i64) -> (record: Result<
    LeanRecord,
    CodecFault,
>)
    requires
        end <= buf@.len(),
    ensures
        match record {
            Ok(r) => {
                &&& fields_at(buf@, pos as int, end as int, base_offset, timestamp) == Ok::<
                    (LeanRecord, int),
                    Flaw,
                >((r, end as int))
                &&& buf@.len() <= ABSENT ==> range_fits(r.key, buf@.len()) && range_fits(
                    r.value,
                    buf@.len(),
                )
            },
            Err(e) => fields_at(buf@, pos as int, end as int, base_offset, timestamp) == Err::<
                (LeanRecord, int),
                Flaw,
            >(e@),
        },
{
    let mut at: usize = pos;
    proof {
        wire::lemma_varint_at(buf@, pos as int);
    }
    let offset_delta: i64 = match wire::varint(buf, &mut at) {
        None => return Err(CodecFault::OffsetDelta),
        Some(n) => n,
    };
    let (key_len, key_at, key_end) = match sized(buf, at) {
        None => return Err(CodecFault::KeyLength),
        Some(field) => field,
    };
    proof {
        wire::lemma_varint_at(buf@, key_end as int);
        wire::lemma_varint_at(buf@, key_at + at_least_zero(key_len));
    }
    let (value_len, value_at, value_end) = match sized(buf, key_end) {
        None => return Err(CodecFault::ValueLength),
        Some(field) => field,
    };
    proof {
        wire::lemma_varint_at(buf@, value_end as int);
        wire::lemma_varint_at(buf@, value_at + at_least_zero(value_len));
    }
    let mut headers_at: usize = value_end;
    let count: i64 = match wire::varint(buf, &mut headers_at) {
        None => return Err(CodecFault::HeaderCount),
        Some(n) => n,
    };
    let block: usize = if end > headers_at {
        end - headers_at
    } else {
        0
    };
    let header_count: i64 = if count > 0 {
        count
    } else {
        0
    };
    Ok(
        LeanRecord {
            offset: base_offset.wrapping_add(offset_delta),
            timestamp,
            key: if key_len >= 0 {
                (key_at as u32, key_len as u32)
            } else {
                (ABSENT, 0)
            },
            value: if value_len >= 0 {
                (value_at as u32, value_len as u32)
            } else {
                (ABSENT, 0)
            },
            headers: (headers_at as u32, block as u32),
            header_count: header_count as u32,
        },
    )
}

/// The record of a records section at `pos`, and where the next one begins.
pub fn next_record(body: &[u8], pos: usize, base_offset: i64, base_timestamp: i64) -> (record:
    Result<(LeanRecord, usize), CodecFault>)
    ensures
        match record {
            Ok((r, end)) => {
                &&& pos < end <= body@.len()
                &&& record_at(body@, pos as int, base_offset, base_timestamp) == Ok::<
                    (LeanRecord, int),
                    Flaw,
                >((r, end as int))
                &&& body@.len() <= ABSENT ==> range_fits(r.key, body@.len()) && range_fits(
                    r.value,
                    body@.len(),
                )
            },
            Err(e) => record_at(body@, pos as int, base_offset, base_timestamp) == Err::<
                (LeanRecord, int),
                Flaw,
            >(e@),
        },
{
    let size: usize = body.len();
    let mut start: usize = pos;
    proof {
        wire::lemma_varint_at(body@, pos as int);
    }
    let len: i64 = match wire::varint(body, &mut start) {
        None => return Err(CodecFault::RecordLength),
        Some(n) => n,
    };
    if len > 0 && len as u64 > (size - start) as u64 {
        return Err(CodecFault::RecordOverrun);
    }
    let end: usize = if len > 0 {
        start + len as usize
    } else {
        start
    };
    proof {
        wire::lemma_varint_at(body@, start + 1);
    }
    if start == size {
        return Err(CodecFault::TimestampDelta);
    }
    let mut at: usize = start + 1;
    let timestamp_delta: i64 = match wire::varint(body, &mut at) {
        None => return Err(CodecFault::TimestampDelta),
        Some(n) => n,
    };
    let timestamp: i64 = base_timestamp.wrapping_add(timestamp_delta);
    match fields(body, at, end, base_offset, timestamp) {
        Ok(record) => Ok((record, end)),
        Err(e) => Err(e),
    }
}

/// The `count` records of a records section from `pos` on.
pub open spec fn records_from(
    body: Seq<u8>,
    pos: int,
    count: nat,
    base_offset: i64,
    base_timestamp: i64,
) -> Result<Seq<LeanRecord>, Flaw>
    decreases count,
{
    if count == 0 {
        Ok(Seq::empty())
    } else {
        match record_at(body, pos, base_offset, base_timestamp) {
            Err(e) => Err(e),
            Ok((first, next)) => error::followed_by(
                seq![first],
                records_from(body, next, (count - 1) as nat, base_offset, base_timestamp),
            ),
        }
    }
}

/// Whether every record's key and value lie inside `n` bytes.
pub open spec fn records_fit(records: Seq<LeanRecord>, n: nat) -> bool {
    forall|i: int|
        #![trigger records[i]]
        0 <= i < records.len() ==> range_fits(records[i].key, n) && range_fits(records[i].value, n)
}

/// Every record of a records section, decompressed if it was compressed.
pub fn read_records(body: &[u8], count: usize, base_offset: i64, base_timestamp: i64) -> (records:
    Result<Vec<LeanRecord>, CodecFault>)
    ensures
        match records {
            Ok(v) => {
                &&& records_from(body@, 0, count as nat, base_offset, base_timestamp) == Ok::<
                    Seq<LeanRecord>,
                    Flaw,
                >(v@)
                &&& body@.len() <= ABSENT ==> records_fit(v@, body@.len())
            },
            Err(e) => records_from(body@, 0, count as nat, base_offset, base_timestamp) == Err::<
                Seq<LeanRecord>,
                Flaw,
            >(e@),
        },
{
    let mut out: Vec<LeanRecord> = Vec::new();
    let mut pos: usize = 0;
    let mut done: usize = 0;
    let ghost whole = records_from(body@, 0, count as nat, base_offset, base_timestamp);
    proof {
        error::lemma_followed_by_nothing(out@, whole);
        assert(out@ =~= Seq::empty());
    }
    while done < count
        invariant
            done <= count,
            body@.len() <= ABSENT ==> records_fit(out@, body@.len()),
            whole == error::followed_by(
                out@,
                records_from(
                    body@,
                    pos as int,
                    (count - done) as nat,
                    base_offset,
                    base_timestamp,
                ),
            ),
            whole == records_from(body@, 0, count as nat, base_offset, base_timestamp),
        decreases count - done,
    {
        match next_record(body, pos, base_offset, base_timestamp) {
            Err(e) => return Err(e),
            Ok((record, next)) => {
                proof {
                    error::lemma_followed_by(
                        out@,
                        record,
                        records_from(
                            body@,
                            next as int,
                            (count - done - 1) as nat,
                            base_offset,
                            base_timestamp,
                        ),
                    );
                }
                out.push(record);
                pos = next;
                done = done + 1;
            },
        }
    }
    proof {
        error::lemma_followed_by_nothing(out@, whole);
    }
    Ok(out)
}

/// The CRC-32C checksum of some bytes.
pub uninterp spec fn crc32c_of(data: Seq<u8>) -> u32;

/// `crc32c::crc32c`: the CRC-32-Castagnoli checksum. The result is named, not
/// described.
#[verifier::external_body]
pub(crate) fn crc32c(data: &[u8]) -> (crc: u32)
    ensures
        crc == crc32c_of(data@),
{
    crc32c::crc32c(data)
}

/// Where the batch that begins at `at` ends, `None` where what is there is not a
/// whole batch.
pub open spec fn batch_end(s: Seq<u8>, at: int) -> Option<int> {
    let length = wire::i32_of(s, at + LENGTH);
    if at + LENGTH + 4 > s.len() || length <= 0 {
        None
    } else {
        let end = at + LENGTH + 4 + length;
        if end > s.len() || end - at < HEADER_LEN {
            None
        } else {
            Some(end)
        }
    }
}

/// Where the batch that begins at `at` ends.
///
/// `None` where no whole batch is there: a response is cut off at the size that was
/// asked for, so a partial batch at its end is normal and means "stop".
pub fn whole_batch(buffer: &[u8], at: usize) -> (end: Option<usize>)
    ensures
        match end {
            Some(e) => batch_end(buffer@, at as int) == Some(e as int),
            None => batch_end(buffer@, at as int) is None,
        },
{
    let size: usize = buffer.len();
    if at > size || size - at < LENGTH + 4 {
        return None;
    }
    let length: i32 = match wire::i32_at(buffer, at + LENGTH) {
        None => return None,
        Some(n) => n,
    };
    if length <= 0 || length as usize > size - at - LENGTH - 4 {
        return None;
    }
    let end: usize = at + LENGTH + 4 + length as usize;
    if end - at < HEADER_LEN {
        return None;
    }
    Some(end)
}

/// What a batch's header says.
#[derive(Debug, Clone, Copy)]
pub struct BatchHeader {
    pub base_offset: i64,
    pub base_timestamp: i64,
    pub producer_id: i64,
    pub count: usize,
    /// The checksum that the batch carries.
    pub crc: u32,
    pub codec: u8,
    pub transactional: bool,
    pub control: bool,
}

/// The header of a batch.
pub open spec fn header_of(batch: Seq<u8>) -> BatchHeader {
    let count = wire::i32_of(batch, RECORD_COUNT as int);
    BatchHeader {
        base_offset: wire::i64_of(batch, 0),
        base_timestamp: wire::i64_of(batch, BASE_TIMESTAMP as int),
        producer_id: wire::i64_of(batch, PRODUCER_ID as int),
        count: (if count > 0 {
            count as int
        } else {
            0
        }) as usize,
        crc: wire::u32_of(batch, CRC as int),
        codec: batch[FLAGS as int] % 8,
        transactional: (batch[FLAGS as int] / 16) % 2 == 1,
        control: (batch[FLAGS as int] / 32) % 2 == 1,
    }
}

/// Reads a batch's header. A negative record count reads as zero.
pub fn read_header(batch: &[u8]) -> (header: BatchHeader)
    requires
        batch@.len() >= HEADER_LEN,
    ensures
        header == header_of(batch@),
{
    let count: i32 = wire::i32_at(batch, RECORD_COUNT).unwrap();
    let flags: u8 = batch[FLAGS];
    BatchHeader {
        base_offset: wire::i64_at(batch, 0).unwrap(),
        base_timestamp: wire::i64_at(batch, BASE_TIMESTAMP).unwrap(),
        producer_id: wire::i64_at(batch, PRODUCER_ID).unwrap(),
        count: if count > 0 {
            count as usize
        } else {
            0
        },
        crc: wire::u32_at(batch, CRC).unwrap(),
        codec: flags % 8,
        transactional: (flags / 16) % 2 == 1,
        control: (flags / 32) % 2 == 1,
    }
}

/// The records section of a batch, decompressed if it is compressed.
pub open spec fn body_of(batch: Seq<u8>) -> Result<Seq<u8>, Flaw> {
    let section = batch.subrange(HEADER_LEN as int, batch.len() as int);
    let codec = header_of(batch).codec;
    if codec == 0 {
        Ok(section)
    } else {
        codec::decompressed(codec, section)
    }
}

/// The batch that a header and a records section make.
pub open spec fn batch_with(header: BatchHeader, body: Seq<u8>) -> Result<Batch, Flaw> {
    match records_from(body, 0, header.count as nat, header.base_offset, header.base_timestamp) {
        Err(e) => Err(e),
        Ok(records) => Ok(
            Batch {
                body,
                base_offset: header.base_offset,
                producer_id: header.producer_id,
                transactional: header.transactional,
                control: header.control,
                records,
            },
        ),
    }
}

/// The batch that the bytes of a magic-2 batch stand for.
#[verifier::opaque]
pub open spec fn batch_of(batch: Seq<u8>) -> Result<Batch, Flaw> {
    let header = header_of(batch);
    let actual = crc32c_of(batch.subrange(CRC_FROM as int, batch.len() as int));
    if header.crc != actual {
        Err(Flaw::Crc { expected: header.crc, actual })
    } else {
        match body_of(batch) {
            Err(e) => Err(e),
            Ok(body) => batch_with(header, body),
        }
    }
}

/// The batches of a buffer from `at` on: `Ok(None)` where one of them is not of
/// magic 2.
pub open spec fn batches_from(s: Seq<u8>, at: int) -> Result<Option<Seq<Batch>>, Flaw>
    decreases s.len() - at,
{
    match batch_end(s, at) {
        None => Ok(Some(Seq::empty())),
        Some(end) => if s[at + MAGIC] != 2 {
            Ok(None)
        } else {
            match batch_of(s.subrange(at, end)) {
                Err(e) => Err(e),
                Ok(first) => match batches_from(s, end) {
                    Err(e) => Err(e),
                    Ok(None) => Ok(None),
                    Ok(Some(rest)) => Ok(Some(seq![first] + rest)),
                },
            }
        },
    }
}

/// The views of some batches.
pub open spec fn views(batches: Seq<LeanBatch>) -> Seq<Batch> {
    batches.map_values(|b: LeanBatch| b@)
}

/// Whether a batch's ranges lie inside its buffer, as far as 32 bits can say.
pub open spec fn sound(batch: Batch) -> bool {
    batch.body.len() <= ABSENT ==> batch.well_formed()
}

/// Builds a batch from its header and its records section.
pub fn assemble(header: BatchHeader, body: Bytes) -> (batch: Result<LeanBatch, CodecFault>)
    ensures
        match batch {
            Ok(b) => batch_with(header, buffer::contents(body)) == Ok::<Batch, Flaw>(b@)
                && sound(b@),
            Err(e) => batch_with(header, buffer::contents(body)) == Err::<Batch, Flaw>(e@),
        },
{
    match read_records(
        buffer::as_slice(&body),
        header.count,
        header.base_offset,
        header.base_timestamp,
    ) {
        Err(e) => Err(e),
        Ok(records) => Ok(
            LeanBatch {
                buffer: body,
                base_offset: header.base_offset,
                producer_id: header.producer_id,
                transactional: header.transactional,
                control: header.control,
                records,
            },
        ),
    }
}

/// Decodes the batch at `at..end` of a buffer: its checksum first, then its records
/// section, which is a slice of the buffer unless it is compressed.
fn read_batch(buffer: &Bytes, at: usize, end: usize) -> (batch: Result<LeanBatch, CodecFault>)
    requires
        at + HEADER_LEN <= end <= buffer::contents(*buffer).len(),
    ensures
        match batch {
            Ok(b) => batch_of(buffer::contents(*buffer).subrange(at as int, end as int)) == Ok::<
                Batch,
                Flaw,
            >(b@) && sound(b@),
            Err(e) => batch_of(buffer::contents(*buffer).subrange(at as int, end as int)) == Err::<
                Batch,
                Flaw,
            >(e@),
        },
{
    reveal(batch_of);
    let size: usize = buffer::len(buffer);
    let batch = slice_subrange(buffer::as_slice(buffer), at, end);
    let header = read_header(batch);
    let actual: u32 = crc32c(slice_subrange(batch, CRC_FROM, batch.len()));
    if header.crc != actual {
        return Err(CodecFault::Crc { expected: header.crc, actual });
    }
    let section = slice_subrange(batch, HEADER_LEN, batch.len());
    let body = if header.codec == 0 {
        let part = buffer::narrow(buffer, at + HEADER_LEN, end);
        assert(buffer::contents(part) =~= section@);
        part
    } else {
        match codec::decompress(header.codec, section) {
            Err(e) => return Err(e),
            Ok(bytes) => buffer::from_vec(bytes),
        }
    };
    assemble(header, body)
}

/// Decodes every batch in `buffer`.
///
/// `Ok(None)` where a batch is not of magic 2, so that the caller can fall back to
/// a general decoder; an error only where the bytes are wrong. A partial batch at
/// the end is ignored.
///
/// What was written is read back: of batches laid out as in [`crate::layout`], with
/// record headers or without, under any codec, every record comes out in order, as
/// [`crate::layout::law_what_is_written_reads_back`] says batch by batch.
pub fn decode_lean(buffer: &Bytes) -> (batches: Result<Option<Vec<LeanBatch>>, Error>)
    ensures
        match batches {
            Ok(Some(v)) => {
                &&& batches_from(buffer::contents(*buffer), 0) == Ok::<
                    Option<Seq<Batch>>,
                    Flaw,
                >(Some(views(v@)))
                &&& forall|i: int| 0 <= i < v@.len() ==> sound(#[trigger] v@[i]@)
            },
            Ok(None) => batches_from(buffer::contents(*buffer), 0) == Ok::<
                Option<Seq<Batch>>,
                Flaw,
            >(None),
            Err(Error::Codec(e)) => batches_from(buffer::contents(*buffer), 0) == Err::<
                Option<Seq<Batch>>,
                Flaw,
            >(e@),
        },
        forall|list: Seq<layout::Written>|
            layout::all_proper(list) && #[trigger] layout::written_all(list) == buffer::contents(
                *buffer,
            ) ==> (batches matches Ok(Some(v)) && layout::all_lines_read(views(v@))
                == layout::all_lines_written(list)),
{
    let ghost s = buffer::contents(*buffer);
    let ghost whole = batches_from(s, 0);
    proof {
        layout::lemma_gives_back(s);
    }
    let mut out: Vec<LeanBatch> = Vec::new();
    let mut at: usize = 0;
    proof {
        assert(views(out@) =~= Seq::empty());
        lemma_after_nothing(whole);
    }
    loop
        invariant
            s == buffer::contents(*buffer),
            whole == batches_from(s, 0),
            layout::gives_back(s, whole),
            at <= s.len(),
            forall|i: int| 0 <= i < out@.len() ==> sound(#[trigger] out@[i]@),
            whole == after(views(out@), batches_from(s, at as int)),
        decreases s.len() - at,
    {
        let bytes = buffer::as_slice(buffer);
        match whole_batch(bytes, at) {
            None => {
                assert(views(out@) + Seq::<Batch>::empty() =~= views(out@));
                return Ok(Some(out));
            },
            Some(end) => {
                if bytes[at + MAGIC] != 2 {
                    return Ok(None);
                }
                match read_batch(buffer, at, end) {
                    Err(e) => return Err(Error::Codec(e)),
                    Ok(batch) => {
                        let ghost before = views(out@);
                        let ghost first = batch@;
                        out.push(batch);
                        proof {
                            assert(views(out@) =~= before.push(first));
                            lemma_after(before, first, batches_from(s, end as int));
                        }
                        at = end;
                    },
                }
            },
        }
    }
}

/// What a reader has and what it still reads, put together.
pub open spec fn after(done: Seq<Batch>, rest: Result<Option<Seq<Batch>>, Flaw>) -> Result<
    Option<Seq<Batch>>,
    Flaw,
> {
    match rest {
        Ok(Some(rest)) => Ok(Some(done + rest)),
        other => other,
    }
}

proof fn lemma_after(done: Seq<Batch>, first: Batch, rest: Result<Option<Seq<Batch>>, Flaw>)
    ensures
        after(done, after(seq![first], rest)) == after(done.push(first), rest),
{
    if let Ok(Some(rest)) = rest {
        assert(done + (seq![first] + rest) =~= done.push(first) + rest);
    }
}

proof fn lemma_after_nothing(rest: Result<Option<Seq<Batch>>, Flaw>)
    ensures
        after(Seq::empty(), rest) == rest,
{
    if let Ok(Some(rest)) = rest {
        assert(Seq::empty() + rest =~= rest);
    }
}

/// Whether the buffer is nothing but whole batches from `at` on.
pub open spec fn only_whole(s: Seq<u8>, at: int) -> bool
    decreases s.len() - at,
{
    at == s.len() || match batch_end(s, at) {
        None => false,
        Some(end) => only_whole(s, end),
    }
}

proof fn lemma_batch_end_moves(before: Seq<u8>, s: Seq<u8>, at: int)
    requires
        0 <= at <= s.len(),
    ensures
        batch_end(before + s, before.len() + at) == match batch_end(s, at) {
            None => None,
            Some(end) => Some(before.len() + end),
        },
{
    if at + LENGTH + 4 <= s.len() {
        wire::lemma_same_bytes(before + s, before.len() + at + LENGTH, s, at + LENGTH, 4);
    }
}

proof fn lemma_batches_move(before: Seq<u8>, s: Seq<u8>, at: int)
    requires
        0 <= at <= s.len(),
    ensures
        batches_from(before + s, before.len() + at) == batches_from(s, at),
    decreases s.len() - at,
{
    lemma_batch_end_moves(before, s, at);
    if let Some(end) = batch_end(s, at) {
        assert((before + s)[before.len() + at + MAGIC] == s[at + MAGIC]);
        assert((before + s).subrange(before.len() + at, before.len() + end) =~= s.subrange(
            at,
            end,
        ));
        lemma_batches_move(before, s, end);
    }
}

proof fn lemma_batches_go_on(whole: Seq<u8>, rest: Seq<u8>, at: int)
    requires
        0 <= at <= whole.len(),
        only_whole(whole, at),
    ensures
        batches_from(whole + rest, at) == match batches_from(whole, at) {
            Ok(Some(first)) => after(first, batches_from(rest, 0)),
            other => other,
        },
    decreases whole.len() - at,
{
    let s = whole + rest;
    if at == whole.len() {
        lemma_batches_move(whole, rest, 0);
        lemma_after_nothing(batches_from(rest, 0));
        assert(batch_end(whole, at) is None);
    } else {
        let end = batch_end(whole, at)->Some_0;
        wire::lemma_same_bytes(s, at + LENGTH, whole, at + LENGTH, 4);
        assert(batch_end(s, at) == Some(end));
        assert(s[at + MAGIC] == whole[at + MAGIC]);
        assert(s.subrange(at, end) =~= whole.subrange(at, end));
        lemma_batches_go_on(whole, rest, end);
        if let Ok(first) = batch_of(whole.subrange(at, end)) {
            if let Ok(Some(more)) = batches_from(whole, end) {
                if let Ok(Some(last)) = batches_from(rest, 0) {
                    assert(seq![first] + (more + last) =~= (seq![first] + more) + last);
                }
            }
        }
    }
}

/// Whole batches are read one after the other: what stands behind them is read as if it
/// stood alone.
pub proof fn law_batches_are_read_in_turn(whole: Seq<u8>, rest: Seq<u8>)
    requires
        only_whole(whole, 0),
    ensures
        batches_from(whole + rest, 0) == match batches_from(whole, 0) {
            Ok(Some(first)) => after(first, batches_from(rest, 0)),
            other => other,
        },
{
    lemma_batches_go_on(whole, rest, 0);
}

/// A response that is cut off inside a batch loses that batch and nothing else: the
/// fragment is ignored, wherever the cut falls.
pub proof fn law_a_cut_batch_is_ignored(whole: Seq<u8>, batch: Seq<u8>, cut: int)
    requires
        only_whole(whole, 0),
        batch_end(batch, 0) == Some(batch.len() as int),
        0 <= cut < batch.len(),
    ensures
        batches_from(whole + batch.take(cut), 0) == batches_from(whole, 0),
{
    let part = batch.take(cut);
    law_batches_are_read_in_turn(whole, part);
    if cut >= LENGTH + 4 {
        wire::lemma_same_bytes(part, LENGTH as int, batch, LENGTH as int, 4);
    }
    assert(batch_end(part, 0) is None);
    if let Ok(Some(first)) = batches_from(whole, 0) {
        assert(first + Seq::<Batch>::empty() =~= first);
    }
}

/// Whether a batch closes its producer's aborted transaction: it holds an abort
/// marker.
pub open spec fn closes(batch: Batch) -> bool {
    batch.control && exists|k: int|
        0 <= k < batch.records.len() && marker_type(
            range_of(batch.body, (#[trigger] batch.records[k]).key),
        ) == Some(consumer::CONTROL_ABORT)
}

/// The batches that hold a record.
pub open spec fn nonempty(batches: Seq<Batch>) -> Seq<Batch> {
    batches.filter(|b: Batch| b.records.len() > 0)
}

/// What the filter sees of each batch that holds a record: it begins at its first
/// record.
pub open spec fn batch_steps(batches: Seq<Batch>) -> Seq<consumer::Step> {
    batches.map_values(
        |b: Batch|
            consumer::Step {
                offset: b.records[0].offset,
                producer: b.producer_id,
                abort: closes(b),
            },
    )
}

/// The records of a batch that lie where the caller asked: not before the fetch
/// offset, and below the last stable offset for a reader of committed data.
pub open spec fn in_reach(
    batch: Batch,
    last_stable_offset: i64,
    isolation: IsolationLevel,
    fetch_offset: i64,
) -> Batch {
    let late = if batch.records[0].offset < fetch_offset {
        batch.records.filter(|r: LeanRecord| r.offset >= fetch_offset)
    } else {
        batch.records
    };
    Batch {
        records: if isolation == IsolationLevel::ReadCommitted {
            late.filter(|r: LeanRecord| r.offset < last_stable_offset)
        } else {
            late
        },
        ..batch
    }
}

/// What is left of the first `n` of some nonempty batches: neither markers nor, for a
/// reader of committed data, batches of an aborted transaction, each cut to what lies
/// in reach, without those of which nothing does.
pub open spec fn left_of(
    batches: Seq<Batch>,
    aborted: Seq<AbortedTransaction>,
    last_stable_offset: i64,
    isolation: IsolationLevel,
    fetch_offset: i64,
    n: nat,
) -> Seq<Batch>
    decreases n,
{
    if n == 0 {
        Seq::empty()
    } else {
        let earlier = left_of(
            batches,
            aborted,
            last_stable_offset,
            isolation,
            fetch_offset,
            (n - 1) as nat,
        );
        let batch = batches[n - 1];
        let cut = in_reach(batch, last_stable_offset, isolation, fetch_offset);
        if batch.control || (isolation == IsolationLevel::ReadCommitted && batch.transactional
            && consumer::aborted_at(batch_steps(batches), aborted, batch.producer_id, n - 1))
            || cut.records.len() == 0 {
            earlier
        } else {
            earlier.push(cut)
        }
    }
}

/// The records that a reader may be handed so far: those below the last stable offset for
/// a reader of committed data.
pub open spec fn stable_records(
    records: Seq<LeanRecord>,
    last_stable_offset: i64,
    isolation: IsolationLevel,
) -> Seq<LeanRecord> {
    if isolation == IsolationLevel::ReadCommitted {
        records.filter(|r: LeanRecord| r.offset < last_stable_offset)
    } else {
        records
    }
}

/// Where the next fetch starts when the first `n` of some nonempty batches have been
/// taken in: past the last record of the last one that is stable. A batch may begin below
/// the last stable offset and go on past it, and what lies past it is still to come.
pub open spec fn batch_position(
    batches: Seq<Batch>,
    n: nat,
    last_stable_offset: i64,
    isolation: IsolationLevel,
    fetch_offset: i64,
) -> i64 {
    if n == 0 {
        fetch_offset
    } else {
        stable_records(
            batches[n - 1].records,
            last_stable_offset,
            isolation,
        ).last().offset.wrapping_add(1)
    }
}

/// The offset of the last stable record of a batch whose first one is.
fn last_stable(records: &Vec<LeanRecord>, last_stable_offset: i64, isolation: IsolationLevel) -> (offset:
    i64)
    requires
        records@.len() > 0,
        isolation == IsolationLevel::ReadCommitted ==> records@[0].offset < last_stable_offset,
    ensures
        offset == stable_records(records@, last_stable_offset, isolation).last().offset,
{
    let ghost keep = |r: LeanRecord| r.offset < last_stable_offset;
    let mut n: usize = records.len();
    proof {
        assert(records@.take(n as int) =~= records@);
    }
    if isolation == IsolationLevel::ReadCommitted {
        while records[n - 1].offset >= last_stable_offset
            invariant
                0 < n <= records@.len(),
                keep == (|r: LeanRecord| r.offset < last_stable_offset),
                records@[0].offset < last_stable_offset,
                records@.filter(keep) == records@.take(n as int).filter(keep),
            decreases n,
        {
            proof {
                reveal(Seq::filter);
                assert(records@.take(n as int).drop_last() =~= records@.take(n - 1));
                assert(n > 1);
            }
            n = n - 1;
        }
        proof {
            reveal(Seq::filter);
            assert(records@.take(n as int).last() == records@[n - 1]);
        }
    }
    records[n - 1].offset
}

/// The records at or past `low`.
fn from_offset(records: &Vec<LeanRecord>, low: i64) -> (out: Vec<LeanRecord>)
    ensures
        out@ == records@.filter(|r: LeanRecord| r.offset >= low),
{
    reveal(Seq::filter);
    let ghost keep = |r: LeanRecord| r.offset >= low;
    let mut out: Vec<LeanRecord> = Vec::new();
    let mut i: usize = 0;
    assert(records@.take(0).filter(keep) =~= Seq::empty());
    while i < records.len()
        invariant
            i <= records@.len(),
            keep == (|r: LeanRecord| r.offset >= low),
            out@ == records@.take(i as int).filter(keep),
        decreases records@.len() - i,
    {
        let r = records[i];
        proof {
            let longer = records@.take(i + 1);
            assert(longer.drop_last() =~= records@.take(i as int));
            assert(longer.last() == r);
            reveal(Seq::filter);
        }
        if r.offset >= low {
            out.push(r);
        }
        i = i + 1;
    }
    assert(records@.take(i as int) =~= records@);
    out
}

/// The records before `high`.
fn below_offset(records: &Vec<LeanRecord>, high: i64) -> (out: Vec<LeanRecord>)
    ensures
        out@ == records@.filter(|r: LeanRecord| r.offset < high),
{
    reveal(Seq::filter);
    let ghost keep = |r: LeanRecord| r.offset < high;
    let mut out: Vec<LeanRecord> = Vec::new();
    let mut i: usize = 0;
    assert(records@.take(0).filter(keep) =~= Seq::empty());
    while i < records.len()
        invariant
            i <= records@.len(),
            keep == (|r: LeanRecord| r.offset < high),
            out@ == records@.take(i as int).filter(keep),
        decreases records@.len() - i,
    {
        let r = records[i];
        proof {
            let longer = records@.take(i + 1);
            assert(longer.drop_last() =~= records@.take(i as int));
            assert(longer.last() == r);
            reveal(Seq::filter);
        }
        if r.offset < high {
            out.push(r);
        }
        i = i + 1;
    }
    assert(records@.take(i as int) =~= records@);
    out
}

impl LeanBatch {
    /// Whether this batch holds an abort marker.
    fn closes(&self) -> (yes: bool)
        requires
            self.control ==> self@.well_formed(),
        ensures
            yes == closes(self@),
    {
        if !self.control {
            return false;
        }
        let mut i: usize = 0;
        while i < self.records.len()
            invariant
                i <= self.records@.len(),
                self.control,
                self@.well_formed(),
                forall|k: int|
                    0 <= k < i ==> marker_type(
                        range_of(self@.body, (#[trigger] self@.records[k]).key),
                    ) != Some(consumer::CONTROL_ABORT),
            decreases self.records@.len() - i,
        {
            let ghost here = self@.records[i as int];
            match self.control_type(&self.records[i]) {
                Some(kind) => {
                    if kind == consumer::CONTROL_ABORT {
                        return true;
                    }
                },
                None => {},
            }
            i = i + 1;
        }
        false
    }

    /// Cuts the batch to what lies in reach.
    fn cut(
        self,
        last_stable_offset: i64,
        isolation: IsolationLevel,
        fetch_offset: i64,
    ) -> (batch: LeanBatch)
        requires
            self.records@.len() > 0,
        ensures
            batch@ == in_reach(self@, last_stable_offset, isolation, fetch_offset),
    {
        let mut batch = self;
        if batch.records[0].offset < fetch_offset {
            batch.records = from_offset(&batch.records, fetch_offset);
        }
        if isolation == IsolationLevel::ReadCommitted {
            batch.records = below_offset(&batch.records, last_stable_offset);
        }
        batch
    }
}

proof fn lemma_filter_keeps(records: Seq<LeanRecord>, keep: spec_fn(LeanRecord) -> bool, i: int)
    requires
        0 <= i < records.filter(keep).len(),
    ensures
        records.contains(records.filter(keep)[i]),
    decreases records.len(),
{
    reveal(Seq::filter);
    if records.len() > 0 {
        let less = records.drop_last();
        let kept = less.filter(keep);
        if i < kept.len() {
            lemma_filter_keeps(less, keep, i);
            let k = choose|k: int| 0 <= k < less.len() && less[k] == kept[i];
            assert(records[k] == records.filter(keep)[i]);
        } else {
            assert(records.filter(keep)[i] == records.last());
            assert(records[records.len() - 1] == records.last());
        }
    }
}

proof fn lemma_reach_keeps_ranges(
    batch: Batch,
    last_stable_offset: i64,
    isolation: IsolationLevel,
    fetch_offset: i64,
)
    requires
        batch.well_formed(),
    ensures
        in_reach(batch, last_stable_offset, isolation, fetch_offset).well_formed(),
{
    let cut = in_reach(batch, last_stable_offset, isolation, fetch_offset);
    let from = |r: LeanRecord| r.offset >= fetch_offset;
    let below = |r: LeanRecord| r.offset < last_stable_offset;
    let late = if batch.records[0].offset < fetch_offset {
        batch.records.filter(from)
    } else {
        batch.records
    };
    assert forall|i: int| #![trigger cut.records[i]] 0 <= i < cut.records.len() implies range_fits(
        cut.records[i].key,
        cut.body.len(),
    ) && range_fits(cut.records[i].value, cut.body.len()) by {
        let r = cut.records[i];
        if isolation == IsolationLevel::ReadCommitted {
            lemma_filter_keeps(late, below, i);
        } else {
            assert(late[i] == r);
        }
        assert(late.contains(r));
        let k = choose|k: int| 0 <= k < late.len() && late[k] == r;
        if batch.records[0].offset < fetch_offset {
            lemma_filter_keeps(batch.records, from, k);
        } else {
            assert(batch.records[k] == r);
        }
        assert(batch.records.contains(r));
        let m = choose|m: int| 0 <= m < batch.records.len() && batch.records[m] == r;
        assert(range_fits(batch.records[m].key, batch.body.len()));
    }
}

/// What the filter leaves of batches lies inside their buffers if the batches did: a
/// record that survives can be read.
pub proof fn law_what_is_left_can_be_read(
    batches: Seq<Batch>,
    aborted: Seq<AbortedTransaction>,
    last_stable_offset: i64,
    isolation: IsolationLevel,
    fetch_offset: i64,
    n: nat,
)
    requires
        n <= batches.len(),
        forall|i: int| 0 <= i < batches.len() ==> (#[trigger] batches[i]).well_formed(),
    ensures
        ({
            let left = left_of(
                batches,
                aborted,
                last_stable_offset,
                isolation,
                fetch_offset,
                n,
            );
            forall|i: int| 0 <= i < left.len() ==> (#[trigger] left[i]).well_formed()
        }),
    decreases n,
{
    if n > 0 {
        law_what_is_left_can_be_read(
            batches,
            aborted,
            last_stable_offset,
            isolation,
            fetch_offset,
            (n - 1) as nat,
        );
        assert(batches[n - 1].well_formed());
        lemma_reach_keeps_ranges(batches[n - 1], last_stable_offset, isolation, fetch_offset);
        let earlier = left_of(
            batches,
            aborted,
            last_stable_offset,
            isolation,
            fetch_offset,
            (n - 1) as nat,
        );
        let left = left_of(batches, aborted, last_stable_offset, isolation, fetch_offset, n);
        let cut = in_reach(batches[n - 1], last_stable_offset, isolation, fetch_offset);
        assert(left == earlier || left == earlier.push(cut));
        assert forall|i: int| 0 <= i < left.len() implies (#[trigger] left[i]).well_formed() by {
            if i < earlier.len() {
                assert(left[i] == earlier[i]);
            } else {
                assert(left[i] == cut);
            }
        }
    }
}

/// Whether the caller may have a record of the batch at `k`: the batch holds no markers and
/// is not part of an aborted transaction as far as the isolation level cares, and the record
/// lies where the caller asked.
pub open spec fn reaches_the_caller(
    batches: Seq<Batch>,
    aborted: Seq<AbortedTransaction>,
    last_stable_offset: i64,
    isolation: IsolationLevel,
    fetch_offset: i64,
    k: int,
    r: LeanRecord,
) -> bool {
    let batch = batches[k];
    &&& batch.records.contains(r)
    &&& !batch.control
    &&& !(isolation == IsolationLevel::ReadCommitted && batch.transactional
        && consumer::aborted_at(batch_steps(batches), aborted, batch.producer_id, k))
    &&& batch.records[0].offset < fetch_offset ==> r.offset >= fetch_offset
    &&& isolation == IsolationLevel::ReadCommitted ==> r.offset < last_stable_offset
}

proof fn lemma_filter_contains(
    records: Seq<LeanRecord>,
    keep: spec_fn(LeanRecord) -> bool,
    r: LeanRecord,
)
    ensures
        records.filter(keep).contains(r) <==> records.contains(r) && keep(r),
{
    if records.filter(keep).contains(r) {
        let i = choose|i: int| 0 <= i < records.filter(keep).len() && records.filter(keep)[i] == r;
        lemma_filter_keeps(records, keep, i);
        records.lemma_filter_pred(keep, i);
    }
    if records.contains(r) && keep(r) {
        let i = choose|i: int| 0 <= i < records.len() && records[i] == r;
        records.lemma_filter_contains(keep, i);
    }
}

proof fn lemma_in_reach(
    batch: Batch,
    last_stable_offset: i64,
    isolation: IsolationLevel,
    fetch_offset: i64,
    r: LeanRecord,
)
    ensures
        in_reach(batch, last_stable_offset, isolation, fetch_offset).records.contains(r) <==> {
            &&& batch.records.contains(r)
            &&& batch.records[0].offset < fetch_offset ==> r.offset >= fetch_offset
            &&& isolation == IsolationLevel::ReadCommitted ==> r.offset < last_stable_offset
        },
{
    let from = |r: LeanRecord| r.offset >= fetch_offset;
    let below = |r: LeanRecord| r.offset < last_stable_offset;
    lemma_filter_contains(batch.records, from, r);
    let late = if batch.records[0].offset < fetch_offset {
        batch.records.filter(from)
    } else {
        batch.records
    };
    lemma_filter_contains(late, below, r);
}

/// What the caller gets is exactly what it may have of the batches taken in: nothing else
/// reaches it, and nothing of it is lost.
pub proof fn law_exactly_the_visible_records_are_left(
    batches: Seq<Batch>,
    aborted: Seq<AbortedTransaction>,
    last_stable_offset: i64,
    isolation: IsolationLevel,
    fetch_offset: i64,
    n: nat,
    r: LeanRecord,
    body: Seq<u8>,
)
    requires
        n <= batches.len(),
    ensures
        ({
            let left = left_of(
                batches,
                aborted,
                last_stable_offset,
                isolation,
                fetch_offset,
                n,
            );
            (exists|j: int|
                0 <= j < left.len() && (#[trigger] left[j]).body == body && left[j].records.contains(
                    r,
                )) <==> (exists|k: int|
                0 <= k < n && (#[trigger] batches[k]).body == body && reaches_the_caller(
                    batches,
                    aborted,
                    last_stable_offset,
                    isolation,
                    fetch_offset,
                    k,
                    r,
                ))
        }),
    decreases n,
{
    let left = left_of(batches, aborted, last_stable_offset, isolation, fetch_offset, n);
    if n > 0 {
        let earlier = left_of(
            batches,
            aborted,
            last_stable_offset,
            isolation,
            fetch_offset,
            (n - 1) as nat,
        );
        law_exactly_the_visible_records_are_left(
            batches,
            aborted,
            last_stable_offset,
            isolation,
            fetch_offset,
            (n - 1) as nat,
            r,
            body,
        );
        let batch = batches[n - 1];
        let cut = in_reach(batch, last_stable_offset, isolation, fetch_offset);
        lemma_in_reach(batch, last_stable_offset, isolation, fetch_offset, r);
        let last = reaches_the_caller(
            batches,
            aborted,
            last_stable_offset,
            isolation,
            fetch_offset,
            n - 1,
            r,
        );
        if exists|j: int|
            0 <= j < left.len() && (#[trigger] left[j]).body == body && left[j].records.contains(r) {
            let j = choose|j: int|
                0 <= j < left.len() && (#[trigger] left[j]).body == body && left[j].records.contains(
                    r,
                );
            if j < earlier.len() {
                assert(earlier[j] == left[j]);
            } else {
                assert(left[j] == cut);
                assert(last && batches[n - 1].body == body);
            }
        }
        if exists|j: int|
            0 <= j < earlier.len() && (#[trigger] earlier[j]).body == body
                && earlier[j].records.contains(r) {
            let j = choose|j: int|
                0 <= j < earlier.len() && (#[trigger] earlier[j]).body == body
                    && earlier[j].records.contains(r);
            assert(left[j] == earlier[j]);
        }
        if last && batch.body == body {
            assert(cut.records.contains(r));
            assert(left == earlier.push(cut));
            assert(left[earlier.len() as int] == cut);
        }
    }
}

/// The list of aborted transactions may arrive in any order, and may repeat itself.
pub proof fn law_the_order_of_aborted_transactions_is_free(
    batches: Seq<Batch>,
    one: Seq<AbortedTransaction>,
    other: Seq<AbortedTransaction>,
    last_stable_offset: i64,
    isolation: IsolationLevel,
    fetch_offset: i64,
    n: nat,
)
    requires
        consumer::same_transactions(one, other),
        n <= batches.len(),
    ensures
        left_of(batches, one, last_stable_offset, isolation, fetch_offset, n) == left_of(
            batches,
            other,
            last_stable_offset,
            isolation,
            fetch_offset,
            n,
        ),
    decreases n,
{
    if n > 0 {
        law_the_order_of_aborted_transactions_is_free(
            batches,
            one,
            other,
            last_stable_offset,
            isolation,
            fetch_offset,
            (n - 1) as nat,
        );
        let steps = batch_steps(batches);
        let p = batches[n - 1].producer_id;
        consumer::lemma_same_transactions(steps, one, other, p, n - 1);
        consumer::lemma_same_transactions(steps, other, one, p, n - 1);
    }
}

/// Batches that were taken in move the position on, whatever was dropped of them: past the
/// last stable record of the last one.
pub proof fn law_dropped_records_make_progress(
    batches: Seq<Batch>,
    n: nat,
    last_stable_offset: i64,
    isolation: IsolationLevel,
    fetch_offset: i64,
)
    requires
        0 < n <= batches.len(),
        ({
            let stable = stable_records(batches[n - 1].records, last_stable_offset, isolation);
            fetch_offset <= stable.last().offset < i64::MAX
        }),
    ensures
        ({
            let stable = stable_records(batches[n - 1].records, last_stable_offset, isolation);
            let position = batch_position(
                batches,
                n,
                last_stable_offset,
                isolation,
                fetch_offset,
            );
            position == stable.last().offset + 1 && position > fetch_offset
        }),
{
}

/// For a reader of committed data the position does not pass the last stable offset:
/// what lies at it or past it is still fetched once it is stable.
pub proof fn law_nothing_unstable_is_passed_over(
    batches: Seq<Batch>,
    last_stable_offset: i64,
    fetch_offset: i64,
)
    requires
        forall|i: int| 0 <= i < batches.len() ==> (#[trigger] batches[i]).records.len() > 0,
    ensures
        ({
            let isolation = IsolationLevel::ReadCommitted;
            let n = consumer::stable_len(
                batch_steps(batches),
                isolation,
                last_stable_offset,
                0,
            );
            let position = batch_position(
                batches,
                n,
                last_stable_offset,
                isolation,
                fetch_offset,
            );
            position == fetch_offset || position <= last_stable_offset
        }),
{
    let isolation = IsolationLevel::ReadCommitted;
    let steps = batch_steps(batches);
    let n = consumer::stable_len(steps, isolation, last_stable_offset, 0);
    if n > 0 {
        consumer::law_nothing_past_the_last_stable_offset(steps, isolation, last_stable_offset);
        let records = batches[n - 1].records;
        assert(steps[n - 1].offset == records[0].offset);
        let keep = |r: LeanRecord| r.offset < last_stable_offset;
        lemma_one_passes(records, keep, 0);
        lemma_filter_keeps(records, keep, records.filter(keep).len() - 1);
    }
}

/// A filtered list is not empty where one of its items passes.
proof fn lemma_one_passes(list: Seq<LeanRecord>, keep: spec_fn(LeanRecord) -> bool, i: int)
    requires
        0 <= i < list.len(),
        keep(list[i]),
    ensures
        list.filter(keep).len() > 0,
    decreases list.len(),
{
    reveal(Seq::filter);
    if i < list.len() - 1 {
        lemma_one_passes(list.drop_last(), keep, i);
    }
}

/// Applies the read-committed rules **per batch**: flags and producer id stand where
/// the format puts them, so an aborted transaction is dropped a batch at a time.
///
/// Returns the batches for the caller and the offset where the next fetch starts,
/// which lies past dropped records too, and not past a record that is not stable yet.
pub fn filter_batches(
    batches: Vec<LeanBatch>,
    aborted: &[AbortedTransaction],
    last_stable_offset: i64,
    isolation: IsolationLevel,
    fetch_offset: i64,
) -> (kept: (Vec<LeanBatch>, i64))
    requires
        forall|i: int|
            0 <= i < batches@.len() && (#[trigger] batches@[i]).control
                ==> batches@[i]@.well_formed(),
    ensures
        ({
            let all = nonempty(views(batches@));
            let n = consumer::stable_len(batch_steps(all), isolation, last_stable_offset, 0);
            &&& views(kept.0@) == left_of(
                all,
                aborted@,
                last_stable_offset,
                isolation,
                fetch_offset,
                n,
            )
            &&& kept.1 == batch_position(all, n, last_stable_offset, isolation, fetch_offset)
        }),
{
    let ghost whole = batches@;
    let ghost given = views(batches@);
    let ghost all = nonempty(given);
    let ghost steps = batch_steps(all);
    let read_committed = isolation == IsolationLevel::ReadCommitted;
    let mut kept: Vec<LeanBatch> = Vec::new();
    let mut next_offset: i64 = fetch_offset;
    let mut tracker = AbortTracker::new(aborted);
    let mut stopped = false;
    let ghost mut n: nat = 0;
    let ghost mut seen: nat = 0;
    proof {
        reveal(Seq::filter);
        assert(given.take(0) =~= Seq::empty());
        assert(steps.take(0) =~= Seq::empty());
        assert(views(kept@) =~= Seq::empty());
    }
    for batch in it: batches
        invariant
            it.seq() == whole,
            given == views(whole),
            all == nonempty(given),
            steps == batch_steps(all),
            forall|i: int|
                0 <= i < whole.len() && (#[trigger] whole[i]).control ==> whole[i]@.well_formed(),
            tracker.well_formed(),
            tracker.aborted() == aborted@,
            read_committed == (isolation == IsolationLevel::ReadCommitted),
            nonempty(given.take(it.index() as int)).len() == seen,
            n <= seen <= all.len(),
            !stopped ==> n == seen,
            !stopped ==> consumer::stable_len(steps, isolation, last_stable_offset, 0)
                == consumer::stable_len(steps, isolation, last_stable_offset, n),
            stopped ==> consumer::stable_len(steps, isolation, last_stable_offset, 0) == n,
            tracker.steps() == steps.take(n as int),
            views(kept@) == left_of(
                all,
                aborted@,
                last_stable_offset,
                isolation,
                fetch_offset,
                n,
            ),
            next_offset == batch_position(
                all,
                n,
                last_stable_offset,
                isolation,
                fetch_offset,
            ),
    {
        let ghost i = it.index() as int;
        let ghost view = batch@;
        proof {
            assert(given[i] == batch@);
            lemma_nonempty_at(given, i);
        }
        if batch.records.len() > 0 {
            let first: i64 = batch.records[0].offset;
            assert(all[seen as int] == view);
            assert(steps[seen as int].offset == first);
            if !stopped && read_committed && first >= last_stable_offset {
                stopped = true;
            }
            if !stopped {
                let last: i64 = last_stable(&batch.records, last_stable_offset, isolation);
                next_offset = last.wrapping_add(1);
                let abort = batch.closes();
                let inside = tracker.step(first, batch.producer_id, abort);
                let ghost at = n as int;
                proof {
                    assert(tracker.steps() =~= steps.take(at + 1));
                    consumer::lemma_prefix_decides(steps, aborted@, batch.producer_id, at, at + 1);
                    n = n + 1;
                }
                if !batch.control && !(read_committed && batch.transactional && inside) {
                    let cut = batch.cut(last_stable_offset, isolation, fetch_offset);
                    if cut.records.len() > 0 {
                        let ghost before = views(kept@);
                        let ghost shown = cut@;
                        kept.push(cut);
                        assert(views(kept@) =~= before.push(shown));
                    }
                }
            }
            proof {
                seen = seen + 1;
            }
        }
    }
    proof {
        assert(given.take(given.len() as int) =~= given);
    }
    (kept, next_offset)
}

/// Going one batch further adds it to the nonempty ones exactly if it holds a record.
proof fn lemma_nonempty_at(given: Seq<Batch>, i: int)
    requires
        0 <= i < given.len(),
    ensures
        ({
            let before = nonempty(given.take(i));
            let after = nonempty(given.take(i + 1));
            if given[i].records.len() > 0 {
                &&& after == before.push(given[i])
                &&& before.len() < nonempty(given).len()
                &&& nonempty(given)[before.len() as int] == given[i]
            } else {
                after == before
            }
        }),
{
    let keep = |b: Batch| b.records.len() > 0;
    let longer = given.take(i + 1);
    assert(longer.drop_last() =~= given.take(i));
    assert(longer.last() == given[i]);
    reveal(Seq::filter);
    let after = nonempty(longer);
    lemma_nonempty_prefix(given, i + 1);
    if given[i].records.len() > 0 {
        let before = nonempty(given.take(i));
        assert(after == before.push(given[i]));
        assert(nonempty(given).take(after.len() as int)[before.len() as int] == given[i]);
    }
}

proof fn lemma_nonempty_prefix(given: Seq<Batch>, n: int)
    requires
        0 <= n <= given.len(),
    ensures
        nonempty(given.take(n)).len() <= nonempty(given).len(),
        nonempty(given).take(nonempty(given.take(n)).len() as int) == nonempty(given.take(n)),
    decreases given.len(),
{
    reveal(Seq::filter);
    if n == given.len() {
        assert(given.take(n) =~= given);
        assert(nonempty(given).take(nonempty(given).len() as int) =~= nonempty(given));
    } else {
        let shorter = given.drop_last();
        lemma_nonempty_prefix(shorter, n);
        assert(shorter.take(n) =~= given.take(n));
        let part = nonempty(given.take(n));
        assert(nonempty(given).take(part.len() as int) =~= nonempty(shorter).take(
            part.len() as int,
        ));
    }
}

/// Where a batch's header says what: the first offset in the first eight bytes, the
/// checksum in the four at 17, the codec and the two flags in the byte at 22, the first
/// timestamp at 27, the producer at 43 and the number of records at 57, a negative one
/// counting as none.
pub proof fn law_a_header_stands_where_the_format_puts_it(batch: Seq<u8>)
    ensures
        ({
            let header = header_of(batch);
            &&& header.base_offset == wire::i64_of(batch, 0)
            &&& header.crc == wire::u32_of(batch, 17)
            &&& header.codec == batch[22] % 8
            &&& header.transactional == ((batch[22] / 16) % 2 == 1)
            &&& header.control == ((batch[22] / 32) % 2 == 1)
            &&& header.base_timestamp == wire::i64_of(batch, 27)
            &&& header.producer_id == wire::i64_of(batch, 43)
            &&& wire::i32_of(batch, 57) >= 0 ==> header.count == wire::i32_of(batch, 57)
            &&& wire::i32_of(batch, 57) < 0 ==> header.count == 0
        }),
{
}

/// A batch is read only if its checksum, taken from byte 21 to its end, is the one that it
/// carries; otherwise it is refused, and both checksums are told. A batch that is read says
/// of itself what its header does.
pub proof fn law_a_damaged_batch_is_refused(batch: Seq<u8>)
    ensures
        ({
            let carried = wire::u32_of(batch, 17);
            let actual = crc32c_of(batch.subrange(21, batch.len() as int));
            &&& carried != actual ==> batch_of(batch) == Err::<Batch, Flaw>(
                Flaw::Crc { expected: carried, actual },
            )
            &&& batch_of(batch) matches Ok(read) ==> {
                &&& carried == actual
                &&& read.base_offset == wire::i64_of(batch, 0)
                &&& read.producer_id == wire::i64_of(batch, 43)
                &&& read.transactional == ((batch[22] / 16) % 2 == 1)
                &&& read.control == ((batch[22] / 32) % 2 == 1)
                &&& batch[22] % 8 == 0 ==> read.body == batch.subrange(61, batch.len() as int)
            }
        }),
{
    reveal(batch_of);
}

/// Where a batch ends: twelve bytes and the length in the last four of them behind its
/// start. What is not all there, or too short for a header, is no batch.
pub proof fn law_a_batch_ends_where_its_length_says(s: Seq<u8>, at: int)
    requires
        0 <= at <= s.len(),
    ensures
        batch_end(s, at) matches Some(end) ==> {
            &&& end == at + 12 + wire::i32_of(s, at + 8)
            &&& at + 61 <= end <= s.len()
        },
        batch_end(s, at) is None <==> s.len() < at + 12 || wire::i32_of(s, at + 8) < 49 || at + 12
            + wire::i32_of(s, at + 8) > s.len(),
{
}

/// A buffer with a batch of an older format is handed back as a whole, unless a batch ahead
/// of it is wrong.
pub proof fn law_an_older_format_is_handed_back(s: Seq<u8>)
    ensures
        batch_end(s, 0) is Some && s[16] != 2 ==> batches_from(s, 0) == Ok::<
            Option<Seq<Batch>>,
            Flaw,
        >(None),
        batch_end(s, 0) is None ==> batches_from(s, 0) == Ok::<Option<Seq<Batch>>, Flaw>(
            Some(Seq::empty()),
        ),
{
}

/// What a batch is cut to: for a reader of committed data nothing at or past the last stable
/// offset, and nothing before the offset that was asked for, of a batch that begins before
/// it. Everything else of the batch stays, and so does all that it says of itself.
pub proof fn law_a_batch_is_cut_to_what_was_asked(
    batch: Batch,
    last_stable_offset: i64,
    isolation: IsolationLevel,
    fetch_offset: i64,
    r: LeanRecord,
)
    requires
        batch.records.len() > 0,
    ensures
        ({
            let cut = in_reach(batch, last_stable_offset, isolation, fetch_offset);
            &&& cut.records.contains(r) <==> batch.records.contains(r) && (
            batch.records[0].offset < fetch_offset ==> r.offset >= fetch_offset) && (isolation
                == IsolationLevel::ReadCommitted ==> r.offset < last_stable_offset)
            &&& cut.body == batch.body
            &&& cut.base_offset == batch.base_offset
            &&& cut.producer_id == batch.producer_id
            &&& cut.transactional == batch.transactional
            &&& cut.control == batch.control
        }),
{
    let late = |r: LeanRecord| r.offset >= fetch_offset;
    let stable = |r: LeanRecord| r.offset < last_stable_offset;
    let first = if batch.records[0].offset < fetch_offset {
        batch.records.filter(late)
    } else {
        batch.records
    };
    lemma_filter_holds(batch.records, late, r);
    lemma_filter_holds(first, stable, r);
}

proof fn lemma_filter_holds(list: Seq<LeanRecord>, keep: spec_fn(LeanRecord) -> bool, r: LeanRecord)
    ensures
        list.filter(keep).contains(r) <==> list.contains(r) && keep(r),
    decreases list.len(),
{
    reveal(Seq::filter);
    if list.len() > 0 {
        let earlier = list.drop_last();
        lemma_filter_holds(earlier, keep, r);
        let now = list.filter(keep);
        let before = earlier.filter(keep);
        if before.contains(r) {
            let k = choose|k: int| 0 <= k < before.len() && before[k] == r;
            assert(now[k] == r);
        }
        if earlier.contains(r) {
            let k = choose|k: int| 0 <= k < earlier.len() && earlier[k] == r;
            assert(list[k] == r);
        }
        if list.contains(r) && r != list.last() {
            let k = choose|k: int| 0 <= k < list.len() && list[k] == r;
            assert(earlier[k] == r);
        }
        if r == list.last() {
            assert(list[list.len() - 1] == r);
            if keep(r) {
                assert(now[now.len() - 1] == r);
            }
        }
        if now.contains(r) && !before.contains(r) {
            let k = choose|k: int| 0 <= k < now.len() && now[k] == r;
            assert(k == before.len());
        }
    }
}

/// Batches without records are passed over, and the others stay, in their order.
pub proof fn law_empty_batches_are_passed_over(batches: Seq<Batch>, batch: Batch)
    ensures
        batch.records.len() == 0 ==> nonempty(batches.push(batch)) == nonempty(batches),
        batch.records.len() > 0 ==> nonempty(batches.push(batch)) == nonempty(batches).push(batch),
        nonempty(Seq::empty()) == Seq::<Batch>::empty(),
{
    reveal(Seq::filter);
    assert(batches.push(batch).drop_last() =~= batches);
}

/// What the filter sees of a batch: where its first record lies, whose it is, and whether it
/// closes an aborted transaction, which a control batch does that holds an abort marker, a
/// key of type 0 behind two bytes of version.
pub proof fn law_a_batch_closes_with_an_abort_marker(batches: Seq<Batch>, i: int)
    requires
        0 <= i < batches.len(),
    ensures
        batch_steps(batches).len() == batches.len(),
        batch_steps(batches)[i].offset == batches[i].records[0].offset,
        batch_steps(batches)[i].producer == batches[i].producer_id,
        !batches[i].control ==> !batch_steps(batches)[i].abort,
        batches[i].control ==> (batch_steps(batches)[i].abort <==> exists|k: int|
            0 <= k < batches[i].records.len() && (range_of(
                batches[i].body,
                (#[trigger] batches[i].records[k]).key,
            ) matches Some(key) && key.len() >= 4 && wire::i16_of(key, 2) == 0)),
{
    let batch = batches[i];
    if batch.control {
        if closes(batch) {
            let k = choose|k: int|
                0 <= k < batch.records.len() && marker_type(
                    range_of(batch.body, (#[trigger] batch.records[k]).key),
                ) == Some(consumer::CONTROL_ABORT);
            assert(batches[i].records[k] == batch.records[k]);
        }
    }
}

} // verus!
