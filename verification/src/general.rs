//! The general-purpose batch reader, which builds a record per record. It is what is
//! left for batches that the lean reader hands back.
use crate::buffer;
use crate::client::{Error, Fault};
use crate::consumer;
use crate::consumer::{Record, TimestampType};
use crate::error;
use crate::error::{CodecFault, Flaw};
use crate::records;
use crate::wire;
use bytes::Bytes;
use kafka_protocol::records::RecordBatchDecoder;
use kafka_protocol::records::TimestampType as WireTimestampType;
use vstd::prelude::*;
use vstd::slice::slice_subrange;

verus! {

/// A batch's first offset and its length precede the rest of it.
pub const PREFIX: usize = 12;

/// Whether every offset that a 32-bit delta can give lies inside 64 bits.
pub open spec fn takes_deltas(base: i64) -> bool {
    i64::MIN - i32::MIN <= base <= i64::MAX - i32::MAX
}

/// Whether neither the offsets nor the timestamps of a batch can leave 64 bits. Deltas are
/// added in batches of magic 2 only.
pub open spec fn bases_fit(batch: Seq<u8>) -> bool {
    batch.len() >= records::BASE_TIMESTAMP + 8 && batch[records::MAGIC as int] == 2
        ==> takes_deltas(wire::i64_of(batch, 0)) && takes_deltas(
        wire::i64_of(batch, records::BASE_TIMESTAMP as int),
    )
}

/// The records of one batch, as
/// `kafka_protocol::records::RecordBatchDecoder::decode` reads them, or what it says is
/// wrong with it.
pub uninterp spec fn decoded(batch: Seq<u8>) -> Result<Seq<consumer::FullRecord>, Seq<char>>;

/// What some records, or the text of why there are none, stand for.
pub open spec fn records_or_text(list: Result<Vec<Record>, String>) -> Result<
    Seq<consumer::FullRecord>,
    Seq<char>,
> {
    match list {
        Ok(list) => Ok(consumer::full_records(list@)),
        Err(said) => Err(said@),
    }
}

/// What some records, or the fault for which there are none, stand for.
pub open spec fn records_or_fault(list: Result<Vec<Record>, CodecFault>) -> Result<
    Seq<consumer::FullRecord>,
    Flaw,
> {
    match list {
        Ok(list) => Ok(consumer::full_records(list@)),
        Err(e) => Err(e@),
    }
}

/// Whether some bytes are as long as the batch that they begin.
pub open spec fn one_whole(batch: Seq<u8>) -> bool {
    batch.len() >= PREFIX && PREFIX + wire::i32_of(batch, records::LENGTH as int) == batch.len()
}

/// Whether one whole batch has the wrong checksum.
pub open spec fn damaged(batch: Seq<u8>) -> bool {
    &&& one_whole(batch)
    &&& batch.len() >= records::CRC_FROM
    &&& wire::u32_of(batch, records::CRC as int) != records::crc32c_of(
        batch.subrange(records::CRC_FROM as int, batch.len() as int),
    )
}

/// `kafka_protocol::records::RecordBatchDecoder::decode`, on one whole batch. What it
/// reads, or says of a batch that it refuses, is named. It refuses a batch that is not of
/// magic 2, or whose checksum is wrong, and adds deltas to the first
/// offset and timestamp of any other without looking, so one where that can leave 64
/// bits is left out. It reserves room for as
/// many records as the batch announces before it reads them.
#[verifier::external_body]
fn decode(batch: &Bytes) -> (list: Result<Vec<Record>, String>)
    requires
        bases_fit(buffer::contents(*batch)) || damaged(buffer::contents(*batch)),
    ensures
        records_or_text(list) == decoded(buffer::contents(*batch)),
{
    let set = RecordBatchDecoder::decode(&mut batch.clone()).map_err(|e| e.to_string())?;
    Ok(set.records.into_iter().map(|r| Record {
        transactional: r.transactional, control: r.control,
        partition_leader_epoch: r.partition_leader_epoch, producer_id: r.producer_id,
        producer_epoch: r.producer_epoch, offset: r.offset, sequence: r.sequence,
        timestamp_type: match r.timestamp_type {
            WireTimestampType::Creation => TimestampType::Creation,
            WireTimestampType::LogAppend => TimestampType::LogAppend,
        },
        timestamp: r.timestamp, key: r.key, value: r.value,
        headers: r.headers.into_iter().map(|(k, v)| (k.to_string(), v)).collect(),
    }).collect())
}

/// A batch with its first offset and timestamp set to zero.
pub open spec fn zeroed(batch: Seq<u8>) -> Seq<u8> {
    Seq::new(
        batch.len(),
        |i: int|
            if i < 8 || records::BASE_TIMESTAMP <= i < records::BASE_TIMESTAMP + 8 {
                0u8
            } else {
                batch[i]
            },
    )
}

/// The bytes of a checksum, the highest first.
pub open spec fn crc_bytes(crc: u32) -> (u8, u8, u8, u8) {
    (
        (crc / 0x100_0000) as u8,
        (crc / 0x1_0000 % 0x100) as u8,
        (crc / 0x100 % 0x100) as u8,
        (crc % 0x100) as u8,
    )
}

/// A batch that counts from zero, with a checksum that is right again.
pub open spec fn rebased(batch: Seq<u8>) -> Seq<u8> {
    let plain = zeroed(batch);
    let crc = crc_bytes(
        records::crc32c_of(plain.subrange(records::CRC_FROM as int, plain.len() as int)),
    );
    let at = records::CRC as int;
    plain.update(at, crc.0).update(at + 1, crc.1).update(at + 2, crc.2).update(at + 3, crc.3)
}

/// Whether every record can be moved on by this much.
pub open spec fn can_move(
    list: Seq<consumer::FullRecord>,
    offset: i64,
    timestamp: i64,
) -> bool {
    forall|i: int|
        0 <= i < list.len() ==> i64::MIN <= (#[trigger] list[i]).offset + offset <= i64::MAX
            && i64::MIN <= list[i].timestamp + timestamp <= i64::MAX
}

/// Records, each moved on by this much.
pub open spec fn moved(
    list: Seq<consumer::FullRecord>,
    offset: i64,
    timestamp: i64,
) -> Seq<consumer::FullRecord> {
    list.map_values(
        |r: consumer::FullRecord|
            consumer::FullRecord {
                offset: (r.offset + offset) as i64,
                timestamp: (r.timestamp + timestamp) as i64,
                ..r
            },
    )
}

/// The fault of a batch of which the decoder said something.
pub open spec fn as_flaw(list: Result<Seq<consumer::FullRecord>, Seq<char>>) -> Result<
    Seq<consumer::FullRecord>,
    Flaw,
> {
    match list {
        Ok(list) => Ok(list),
        Err(said) => Err(Flaw::Batch(said)),
    }
}

/// The records of one whole batch. One whose first offset or timestamp lies near the end
/// of 64 bits is read as if it counted from zero, and its records are then moved to where
/// they belong: it is refused only where one of them would leave 64 bits.
pub open spec fn records_in(batch: Seq<u8>) -> Result<Seq<consumer::FullRecord>, Flaw> {
    if bases_fit(batch) || damaged(batch) {
        as_flaw(decoded(batch))
    } else {
        let offset = wire::i64_of(batch, 0);
        let timestamp = wire::i64_of(batch, records::BASE_TIMESTAMP as int);
        match as_flaw(decoded(rebased(batch))) {
            Err(e) => Err(e),
            Ok(list) => if can_move(list, offset, timestamp) {
                Ok(moved(list, offset, timestamp))
            } else {
                Err(Flaw::OutOfRange)
            },
        }
    }
}

proof fn lemma_zero(s: Seq<u8>, at: int, n: nat)
    requires
        forall|k: int| 0 <= k < n ==> #[trigger] s[at + k] == 0,
    ensures
        wire::be_unsigned(s, at, n) == 0,
    decreases n,
{
    if n > 0 {
        lemma_zero(s, at, (n - 1) as nat);
        assert(s[at + (n - 1)] == 0);
    }
}

/// A batch that counts from zero, with a checksum that is right again.
fn rebase(batch: &[u8]) -> (plain: Vec<u8>)
    requires
        batch@.len() >= records::BASE_TIMESTAMP + 8,
    ensures
        plain@ == rebased(batch@),
        bases_fit(plain@),
{
    let ghost goal = zeroed(batch@);
    let mut plain: Vec<u8> = Vec::new();
    let mut i: usize = 0;
    while i < batch.len()
        invariant
            i <= batch@.len(),
            goal == zeroed(batch@),
            plain@.len() == i,
            forall|k: int| 0 <= k < i ==> #[trigger] plain@[k] == goal[k],
        decreases batch@.len() - i,
    {
        plain.push(
            if i < 8 || (records::BASE_TIMESTAMP <= i && i < records::BASE_TIMESTAMP + 8) {
                0
            } else {
                batch[i]
            },
        );
        i = i + 1;
    }
    assert(plain@ =~= goal);
    let crc: u32 = records::crc32c(
        slice_subrange(plain.as_slice(), records::CRC_FROM, plain.len()),
    );
    plain.set(records::CRC, (crc / 0x100_0000) as u8);
    plain.set(records::CRC + 1, (crc / 0x1_0000 % 0x100) as u8);
    plain.set(records::CRC + 2, (crc / 0x100 % 0x100) as u8);
    plain.set(records::CRC + 3, (crc % 0x100) as u8);
    proof {
        lemma_zero(plain@, 0, 8);
        lemma_zero(plain@, records::BASE_TIMESTAMP as int, 8);
    }
    plain
}

/// Moves records on by this much; an error where one of them would leave 64 bits.
fn move_on(list: Vec<Record>, offset: i64, timestamp: i64) -> (there: Result<
    Vec<Record>,
    CodecFault,
>)
    ensures
        records_or_fault(there) == if can_move(
            consumer::full_records(list@),
            offset,
            timestamp,
        ) {
            Ok(moved(consumer::full_records(list@), offset, timestamp))
        } else {
            Err(Flaw::OutOfRange)
        },
{
    let ghost given = list@;
    let ghost all = consumer::full_records(given);
    let ghost goal = moved(all, offset, timestamp);
    let mut out: Vec<Record> = Vec::new();
    for record in it: list
        invariant
            it.seq() == given,
            all == consumer::full_records(given),
            goal == moved(all, offset, timestamp),
            out@.len() == it.index(),
            forall|k: int|
                0 <= k < it.index() ==> i64::MIN <= (#[trigger] all[k]).offset + offset <= i64::MAX
                    && i64::MIN <= all[k].timestamp + timestamp <= i64::MAX,
            forall|k: int| 0 <= k < it.index() ==> (#[trigger] out@[k])@ == goal[k],
    {
        let ghost i = it.index() as int;
        assert(all[i] == record@);
        let at: i64 = match record.offset.checked_add(offset) {
            Some(at) => at,
            None => {
                return Err(CodecFault::OutOfRange);
            },
        };
        let time: i64 = match record.timestamp.checked_add(timestamp) {
            Some(time) => time,
            None => {
                return Err(CodecFault::OutOfRange);
            },
        };
        let mut there = record;
        there.offset = at;
        there.timestamp = time;
        assert(there@.headers =~= all[i].headers);
        assert(there@ == goal[i]);
        out.push(there);
    }
    assert(consumer::full_records(out@) =~= goal);
    Ok(out)
}

/// Hands a batch to the general-purpose decoder.
fn decode_batch(batch: &Bytes) -> (list: Result<Vec<Record>, CodecFault>)
    requires
        bases_fit(buffer::contents(*batch)) || damaged(buffer::contents(*batch)),
    ensures
        records_or_fault(list) == as_flaw(decoded(buffer::contents(*batch))),
{
    match decode(batch) {
        Ok(list) => Ok(list),
        Err(said) => Err(CodecFault::Batch(said)),
    }
}

/// Reads one whole batch.
fn read_batch(batch: &Bytes) -> (list: Result<Vec<Record>, CodecFault>)
    requires
        one_whole(buffer::contents(*batch)),
    ensures
        records_or_fault(list) == records_in(buffer::contents(*batch)),
{
    let view = buffer::as_slice(batch);
    let (offset, timestamp): (i64, i64) = match (
        wire::i64_at(view, 0),
        wire::i64_at(view, records::BASE_TIMESTAMP),
    ) {
        (Some(offset), Some(timestamp)) => (offset, timestamp),
        _ => {
            return decode_batch(batch);
        },
    };
    if view[records::MAGIC] != 2 || (fits_deltas(offset) && fits_deltas(timestamp)) {
        return decode_batch(batch);
    }
    let expected: u32 = wire::u32_at(view, records::CRC).unwrap();
    if expected != records::crc32c(slice_subrange(view, records::CRC_FROM, view.len())) {
        return decode_batch(batch);
    }
    match decode_batch(&buffer::from_vec(rebase(view))) {
        Err(e) => Err(e),
        Ok(list) => move_on(list, offset, timestamp),
    }
}

/// The records of the batches of a buffer from `at` on. A batch that is not all there
/// ends them: the broker cuts a response at its byte limit, and that is no corruption.
pub open spec fn records_from(s: Seq<u8>, at: int) -> Result<Seq<consumer::FullRecord>, Flaw>
    decreases s.len() - at,
{
    if at < 0 || s.len() - at < PREFIX {
        Ok(Seq::empty())
    } else {
        let length = wire::i32_of(s, at + records::LENGTH);
        if length < 0 {
            Err(Flaw::BatchLength(length))
        } else if s.len() - at < PREFIX + length {
            Ok(Seq::empty())
        } else {
            let end = at + PREFIX + length;
            match records_in(s.subrange(at, end)) {
                Err(e) => Err(e),
                Ok(first) => error::followed_by(first, records_from(s, end)),
            }
        }
    }
}

fn fits_deltas(base: i64) -> (yes: bool)
    ensures
        yes == takes_deltas(base),
{
    base >= i64::MIN - i32::MIN as i64 && base <= i64::MAX - i32::MAX as i64
}

/// Decodes the batches in one partition's fetch data.
///
/// The last batch may be truncated, and is then ignored. One that is all there and
/// cannot be decoded is an error, and so is one whose offsets or timestamps leave 64
/// bits.
pub fn decode_records(bytes: &Bytes) -> (list: Result<Vec<Record>, Error>)
    ensures
        match records_from(buffer::contents(*bytes), 0) {
            Ok(all) => list matches Ok(l) && consumer::full_records(l@) == all,
            Err(e) => list is Err && list->Err_0@ == Fault::Core(e),
        },
{
    let ghost s = buffer::contents(*bytes);
    let slice = buffer::as_slice(bytes);
    let size: usize = slice.len();
    let mut all: Vec<Record> = Vec::new();
    let mut at: usize = 0;
    proof {
        assert(consumer::full_records(all@) =~= Seq::empty());
        error::lemma_followed_by_nothing(consumer::full_records(all@), records_from(s, 0));
    }
    while size - at >= PREFIX
        invariant
            s == buffer::contents(*bytes),
            s == slice@,
            size == s.len(),
            at <= size,
            records_from(s, 0) == error::followed_by(
                consumer::full_records(all@),
                records_from(s, at as int),
            ),
        decreases size - at,
    {
        let length: i32 = match wire::i32_at(slice, at + records::LENGTH) {
            Some(length) => length,
            None => 0,
        };
        if length < 0 {
            return Err(Error::Core(error::Error::Codec(CodecFault::BatchLength(length))));
        }
        let body: usize = length as usize;
        if size - at - PREFIX < body {
            assert(consumer::full_records(all@) + Seq::empty() =~= consumer::full_records(all@));
            return Ok(all);
        }
        let end: usize = at + PREFIX + body;
        let batch = buffer::narrow(bytes, at, end);
        let ghost one = s.subrange(at as int, end as int);
        proof {
            wire::lemma_same_bytes(
                one,
                records::LENGTH as int,
                s,
                at + records::LENGTH,
                4,
            );
        }
        match read_batch(&batch) {
            Err(e) => {
                return Err(Error::Core(error::Error::Codec(e)));
            },
            Ok(mut list) => {
                let ghost before = consumer::full_records(all@);
                let ghost first = consumer::full_records(list@);
                proof {
                    lemma_goes_on(before, first, records_from(s, end as int));
                    assert(consumer::full_records(all@ + list@) =~= before + first);
                }
                all.append(&mut list);
            },
        }
        at = end;
    }
    assert(consumer::full_records(all@) + Seq::empty() =~= consumer::full_records(all@));
    Ok(all)
}

proof fn lemma_goes_on<T, E>(done: Seq<T>, first: Seq<T>, rest: Result<Seq<T>, E>)
    ensures
        error::followed_by(done, error::followed_by(first, rest)) == error::followed_by(
            done + first,
            rest,
        ),
{
    if let Ok(r) = rest {
        assert(done + (first + r) =~= done + first + r);
    }
}

/// Where the batch that begins at `at` ends, `None` where it is not all there.
pub open spec fn end_at(s: Seq<u8>, at: int) -> Option<int> {
    let length = wire::i32_of(s, at + records::LENGTH);
    if s.len() - at < PREFIX || length < 0 || s.len() - at < PREFIX + length {
        None
    } else {
        Some(at + PREFIX + length)
    }
}

/// Whether the buffer is nothing but whole batches from `at` on.
pub open spec fn only_whole(s: Seq<u8>, at: int) -> bool
    decreases s.len() - at,
{
    at == s.len() || (0 <= at && match end_at(s, at) {
        None => false,
        Some(end) => only_whole(s, end),
    })
}

proof fn lemma_records_go_on(whole: Seq<u8>, rest: Seq<u8>, at: int)
    requires
        0 <= at <= whole.len(),
        only_whole(whole, at),
        records_from(whole + rest, whole.len() as int) == Ok::<
            Seq<consumer::FullRecord>,
            Flaw,
        >(Seq::empty()),
    ensures
        records_from(whole + rest, at) == records_from(whole, at),
    decreases whole.len() - at,
{
    let s = whole + rest;
    if at < whole.len() {
        let end = end_at(whole, at)->Some_0;
        wire::lemma_same_bytes(s, at + records::LENGTH, whole, at + records::LENGTH, 4);
        assert(s.subrange(at, end) =~= whole.subrange(at, end));
        lemma_records_go_on(whole, rest, end);
    }
}

/// A response that is cut off inside a batch loses that batch and nothing else: the
/// fragment is ignored, wherever the cut falls.
pub proof fn law_a_cut_batch_is_ignored(whole: Seq<u8>, batch: Seq<u8>, cut: int)
    requires
        only_whole(whole, 0),
        end_at(batch, 0) == Some(batch.len() as int),
        0 <= cut < batch.len(),
    ensures
        records_from(whole + batch.take(cut), 0) == records_from(whole, 0),
{
    let s = whole + batch.take(cut);
    let at = whole.len() as int;
    if cut >= PREFIX {
        wire::lemma_same_bytes(s, at + records::LENGTH, batch, records::LENGTH as int, 4);
    }
    assert(records_from(s, at) == Ok::<Seq<consumer::FullRecord>, Flaw>(Seq::empty()));
    lemma_records_go_on(whole, batch.take(cut), 0);
}

/// Whole batches are read one after the other: what stands behind them is read as if it
/// stood alone, and its records follow theirs.
pub proof fn law_batches_are_read_in_turn(whole: Seq<u8>, rest: Seq<u8>)
    requires
        only_whole(whole, 0),
    ensures
        records_from(whole + rest, 0) == match records_from(whole, 0) {
            Ok(first) => error::followed_by(first, records_from(rest, 0)),
            Err(e) => Err(e),
        },
{
    lemma_read_in_turn(whole, rest, 0);
}

proof fn lemma_read_in_turn(whole: Seq<u8>, rest: Seq<u8>, at: int)
    requires
        0 <= at <= whole.len(),
        only_whole(whole, at),
    ensures
        records_from(whole + rest, at) == match records_from(whole, at) {
            Ok(first) => error::followed_by(first, records_from(rest, 0)),
            Err(e) => Err(e),
        },
    decreases whole.len() - at,
{
    let s = whole + rest;
    if at < whole.len() {
        let end = end_at(whole, at)->Some_0;
        wire::lemma_same_bytes(s, at + records::LENGTH, whole, at + records::LENGTH, 4);
        assert(s.subrange(at, end) =~= whole.subrange(at, end));
        lemma_read_in_turn(whole, rest, end);
        if let Ok(first) = records_in(whole.subrange(at, end)) {
            lemma_goes_on(first, records_from(whole, end)->Ok_0, records_from(rest, 0));
        }
    } else {
        lemma_shifted(whole, rest, 0);
        assert(records_from(whole, at) == Ok::<Seq<consumer::FullRecord>, Flaw>(Seq::empty()));
        if let Ok(list) = records_from(rest, 0) {
            assert(Seq::<consumer::FullRecord>::empty() + list =~= list);
        }
    }
}

proof fn lemma_shifted(whole: Seq<u8>, rest: Seq<u8>, at: int)
    requires
        0 <= at <= rest.len(),
    ensures
        records_from(whole + rest, whole.len() + at) == records_from(rest, at),
    decreases rest.len() - at,
{
    let s = whole + rest;
    let from = whole.len() + at;
    if rest.len() - at >= PREFIX {
        wire::lemma_same_bytes(s, from + records::LENGTH, rest, at + records::LENGTH, 4);
        let length = wire::i32_of(rest, at + records::LENGTH);
        if length >= 0 && rest.len() - at >= PREFIX + length {
            let end = at + PREFIX + length;
            assert(s.subrange(from, whole.len() + end) =~= rest.subrange(at, end));
            lemma_shifted(whole, rest, end);
        }
    }
}

/// A batch near the end of 64 bits is read as if it counted from zero: its first offset and
/// timestamp are then zero, its checksum is right for the bytes that it has then, and all
/// else of it is as it was.
pub proof fn law_a_rebased_batch_counts_from_zero(batch: Seq<u8>)
    requires
        batch.len() >= 35,
    ensures
        ({
            let plain = rebased(batch);
            &&& plain.len() == batch.len()
            &&& wire::i64_of(plain, 0) == 0
            &&& wire::i64_of(plain, 27) == 0
            &&& wire::u32_of(plain, 17) == records::crc32c_of(
                plain.subrange(21, plain.len() as int),
            )
            &&& forall|i: int|
                0 <= i < batch.len() && i >= 8 && !(17 <= i < 21) && !(27 <= i < 35)
                    ==> #[trigger] plain[i] == batch[i]
        }),
{
    let plain = rebased(batch);
    lemma_zero(plain, 0, 8);
    lemma_zero(plain, 27, 8);
    let before = zeroed(batch);
    let crc = records::crc32c_of(before.subrange(21, before.len() as int));
    assert(plain.subrange(21, plain.len() as int) =~= before.subrange(21, before.len() as int));
    wire::law_the_highest_byte_comes_first(plain, 17);
    assert(crc == (crc / 0x100_0000) * 0x100_0000 + (crc / 0x1_0000 % 0x100) * 0x1_0000 + (crc
        / 0x100 % 0x100) * 0x100 + crc % 0x100) by (nonlinear_arith);
}

/// Its records are then moved to where they belong, each by the batch's first offset and
/// timestamp, and nothing else of them changes.
pub proof fn law_moved_records_keep_what_they_hold(
    list: Seq<consumer::FullRecord>,
    offset: i64,
    timestamp: i64,
    i: int,
)
    requires
        can_move(list, offset, timestamp),
        0 <= i < list.len(),
    ensures
        moved(list, offset, timestamp).len() == list.len(),
        moved(list, offset, timestamp)[i].offset == list[i].offset + offset,
        moved(list, offset, timestamp)[i].timestamp == list[i].timestamp + timestamp,
        moved(list, offset, timestamp)[i] == (consumer::FullRecord {
            offset: moved(list, offset, timestamp)[i].offset,
            timestamp: moved(list, offset, timestamp)[i].timestamp,
            ..list[i]
        }),
{
    assert(i64::MIN <= list[i].offset + offset <= i64::MAX);
}

/// A batch that counts from where deltas fit is read as it is, and what the decoder says is
/// wrong with it is told. Of any other the records are those of the same batch counting from
/// zero, moved to where they belong; it is refused only where one of them would leave 64
/// bits.
pub proof fn law_a_batch_is_read_as_it_is(batch: Seq<u8>)
    ensures
        ({
            let offset = wire::i64_of(batch, 0);
            let timestamp = wire::i64_of(batch, 27);
            let room: int = 0x8000_0000;
            let fits = i64::MIN + room <= offset <= i64::MAX - room && i64::MIN + room <= timestamp
                <= i64::MAX - room;
            &&& fits ==> records_in(batch) == match decoded(batch) {
                Ok(list) => Ok::<Seq<consumer::FullRecord>, Flaw>(list),
                Err(said) => Err(Flaw::Batch(said)),
            }
            &&& !bases_fit(batch) && !damaged(batch) ==> match decoded(rebased(batch)) {
                Err(said) => records_in(batch) == Err::<Seq<consumer::FullRecord>, Flaw>(
                    Flaw::Batch(said),
                ),
                Ok(list) => {
                    &&& can_move(list, offset, timestamp) ==> records_in(batch) == Ok::<
                        Seq<consumer::FullRecord>,
                        Flaw,
                    >(moved(list, offset, timestamp))
                    &&& !can_move(list, offset, timestamp) ==> records_in(batch) == Err::<
                        Seq<consumer::FullRecord>,
                        Flaw,
                    >(Flaw::OutOfRange)
                },
            }
        }),
{
}

/// A batch is damaged where it is all there, and its checksum, taken from byte 21 to its end,
/// is not the one that it carries.
pub proof fn law_a_damaged_batch_has_the_wrong_checksum(batch: Seq<u8>)
    ensures
        damaged(batch) <==> batch.len() >= 21 && 12 + wire::i32_of(batch, 8) == batch.len()
            && wire::u32_of(batch, 17) != records::crc32c_of(
            batch.subrange(21, batch.len() as int),
        ),
{
}

} // verus!
