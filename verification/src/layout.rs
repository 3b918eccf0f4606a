//! How batches of records are laid out in bytes, header, records and record headers, and
//! that reading them gives the records back.
use crate::codec;
use crate::error::Flaw;
use crate::records;
use crate::records::Batch;
use crate::records::LeanRecord;
use crate::wire;
use vstd::prelude::*;

verus! {

/// The zigzag code of an integer.
pub open spec fn zigzag(value: int) -> nat {
    if value >= 0 {
        (2 * value) as nat
    } else {
        (-2 * value - 1) as nat
    }
}

/// A code in groups of seven bits, the lowest first; all bytes but the last have their
/// high bit set.
pub open spec fn groups(code: nat) -> Seq<u8>
    decreases code,
{
    if code < 128 {
        seq![code as u8]
    } else {
        seq![(code % 128 + 128) as u8] + groups(code / 128)
    }
}

/// The bytes of an integer.
pub open spec fn varint(value: int) -> Seq<u8> {
    groups(zigzag(value))
}

/// Optional bytes behind their length, which is -1 where there are none.
pub open spec fn sized(bytes: Option<Seq<u8>>) -> Seq<u8> {
    match bytes {
        Some(b) => varint(b.len() as int) + b,
        None => varint(-1),
    }
}

/// Headers, one behind the other, each its key and its value.
pub open spec fn headers(list: Seq<(Seq<u8>, Option<Seq<u8>>)>) -> Seq<u8>
    decreases list.len(),
{
    if list.len() == 0 {
        Seq::empty()
    } else {
        sized(Some(list[0].0)) + (sized(list[0].1) + headers(list.drop_first()))
    }
}

/// A record as a batch carries it.
pub ghost struct Entry {
    pub attributes: u8,
    pub timestamp_delta: i64,
    pub offset_delta: i64,
    pub key: Option<Seq<u8>>,
    pub value: Option<Seq<u8>>,
    pub headers: Seq<(Seq<u8>, Option<Seq<u8>>)>,
}

/// What stands behind a record's length.
pub open spec fn fields(entry: Entry) -> Seq<u8> {
    seq![entry.attributes] + (varint(entry.timestamp_delta as int) + (varint(
        entry.offset_delta as int,
    ) + (sized(entry.key) + (sized(entry.value) + (varint(entry.headers.len() as int) + headers(
        entry.headers,
    ))))))
}

/// A record, behind its length.
pub open spec fn record(entry: Entry) -> Seq<u8> {
    varint(fields(entry).len() as int) + fields(entry)
}

/// The records section of a batch, before compression.
pub open spec fn section(entries: Seq<Entry>) -> Seq<u8>
    decreases entries.len(),
{
    if entries.len() == 0 {
        Seq::empty()
    } else {
        record(entries[0]) + section(entries.drop_first())
    }
}

/// Whether bytes stand in a buffer at a position.
pub open spec fn stands(buffer: Seq<u8>, at: int, bytes: Seq<u8>) -> bool {
    &&& 0 <= at
    &&& at + bytes.len() <= buffer.len()
    &&& forall|i: int| 0 <= i < bytes.len() ==> #[trigger] buffer[at + i] == bytes[i]
}

proof fn lemma_stands_both(buffer: Seq<u8>, at: int, one: Seq<u8>, two: Seq<u8>)
    requires
        stands(buffer, at, one + two),
    ensures
        stands(buffer, at, one),
        stands(buffer, at + one.len(), two),
{
    assert forall|i: int| 0 <= i < one.len() implies #[trigger] buffer[at + i] == one[i] by {
        assert(buffer[at + i] == (one + two)[i]);
    }
    assert forall|i: int| 0 <= i < two.len() implies #[trigger] buffer[at + one.len() + i]
        == two[i] by {
        assert(buffer[at + (one.len() + i)] == (one + two)[one.len() + i]);
    }
}

proof fn lemma_stands_slice(buffer: Seq<u8>, at: int, bytes: Seq<u8>)
    requires
        stands(buffer, at, bytes),
    ensures
        buffer.subrange(at, at + bytes.len()) == bytes,
{
    let slice = buffer.subrange(at, at + bytes.len());
    assert forall|i: int| 0 <= i < bytes.len() implies slice[i] == bytes[i] by {
        assert(slice[i] == buffer[at + i]);
    }
    assert(slice =~= bytes);
}

proof fn lemma_power(n: nat)
    requires
        n > 0,
    ensures
        wire::power(n) == 128 * wire::power((n - 1) as nat),
        wire::power((n - 1) as nat) > 0,
{
    vstd::arithmetic::power::lemma_pow1(128);
    vstd::arithmetic::power::lemma_pow_adds(128, 1, (n - 1) as nat);
    vstd::arithmetic::power::lemma_pow_positive(128, (n - 1) as nat);
}

proof fn lemma_groups_len(code: nat, n: nat)
    requires
        n > 0,
        code < wire::power(n),
    ensures
        0 < groups(code).len() <= n,
    decreases n,
{
    lemma_power(n);
    if code >= 128 {
        if n == 1 {
            vstd::arithmetic::power::lemma_pow0(128);
        } else {
            let p = wire::power((n - 1) as nat);
            assert(code / 128 < p) by (nonlinear_arith)
                requires
                    code < 128 * p,
            ;
            lemma_groups_len(code / 128, (n - 1) as nat);
        }
    }
}

/// A reader that has taken `k` bytes takes the groups that follow, and no more.
proof fn lemma_groups_read(buffer: Seq<u8>, at: int, k: nat, code: nat)
    requires
        0 <= at,
        stands(buffer, at + k, groups(code)),
        k + groups(code).len() <= wire::varint_limit(),
    ensures
        ({
            let n = groups(code).len();
            &&& n > 0
            &&& wire::varint_len(buffer, at, k) == k + n
            &&& buffer[at + (k + n) - 1] < 128
            &&& wire::varint_sum(buffer, at, k + n) == wire::varint_sum(buffer, at, k) + code
                * wire::power(k)
        }),
    decreases code,
{
    let bytes = groups(code);
    let p = wire::power(k);
    let byte = buffer[at + k];
    assert(byte == bytes[0]) by {
        assert(buffer[at + k + 0] == bytes[0]);
    }
    assert(wire::varint_sum(buffer, at, k + 1) == wire::varint_sum(buffer, at, k) + (byte % 128)
        as int * p) by {
        lemma_power(k + 1);
        assert(buffer[at + (k + 1) - 1] == byte);
        let d = (byte % 128) as int;
        assert(d * p >= 0) by (nonlinear_arith)
            requires
                d >= 0,
                p > 0,
        ;
    }
    if code < 128 {
        assert(byte == code);
        assert(byte % 128 == code);
        assert(bytes.len() == 1);
        assert(at + (k + 1) - 1 == at + k);
    } else {
        let rest = groups(code / 128);
        lemma_stands_both(buffer, at + k, seq![(code % 128 + 128) as u8], rest);
        lemma_groups_read(buffer, at, k + 1, code / 128);
        lemma_power(k + 1);
        let (low, high) = ((code % 128) as int, (code / 128) as int);
        assert(byte % 128 == low);
        assert(byte >= 128);
        assert(k + groups(code).len() == k + 1 + rest.len());
        assert(high * (128 * p) + low * p == (128 * high + low) * p) by (nonlinear_arith);
        assert(code == 128 * high + low);
    }
}

/// Reading an integer where its bytes stand gives it back.
pub proof fn law_an_integer_reads_back(buffer: Seq<u8>, at: int, value: int)
    requires
        stands(buffer, at, varint(value)),
        i64::MIN <= value <= i64::MAX,
    ensures
        wire::varint_at(buffer, at) == Some((value as i64, at + varint(value).len())),
        varint(value).len() > 0,
{
    let code = zigzag(value);
    assert(wire::power(10) > code) by {
        reveal_with_fuel(vstd::arithmetic::power::pow, 11);
    }
    lemma_groups_len(code, 10);
    vstd::arithmetic::power::lemma_pow0(128);
    lemma_groups_read(buffer, at, 0, code);
    assert(code * 1 == code);
    assert(wire::varint_sum(buffer, at, 0) == 0);
    assert(code < 0x1_0000_0000_0000_0000);
    assert(wire::unzigzag(code) == value);
}

/// Reading optional bytes where they stand: their length, and where they begin.
proof fn lemma_sized_reads(buffer: Seq<u8>, at: int, bytes: Option<Seq<u8>>)
    requires
        stands(buffer, at, sized(bytes)),
        buffer.len() <= records::ABSENT,
    ensures
        ({
            let end = at + sized(bytes).len();
            &&& wire::varint_at(buffer, at) matches Some((len, start)) && {
                &&& len <= records::ABSENT
                &&& at < start <= end <= buffer.len()
                &&& start + records::at_least_zero(len) == end
                &&& match bytes {
                    Some(b) => len == b.len() && stands(buffer, start, b)
                        && buffer.subrange(start, end) == b,
                    None => len < 0,
                }
            }
        }),
{
    match bytes {
        Some(b) => {
            lemma_stands_both(buffer, at, varint(b.len() as int), b);
            law_an_integer_reads_back(buffer, at, b.len() as int);
            lemma_stands_slice(buffer, at + varint(b.len() as int).len(), b);
        },
        None => {
            law_an_integer_reads_back(buffer, at, -1);
        },
    }
}

/// Headers take at least a byte each.
proof fn lemma_headers_len(list: Seq<(Seq<u8>, Option<Seq<u8>>)>)
    ensures
        list.len() <= headers(list).len(),
    decreases list.len(),
{
    if list.len() > 0 {
        lemma_headers_len(list.drop_first());
        let length = varint(list[0].0.len() as int);
        assert(length.len() > 0);
    }
}

/// Reading headers where they stand gives them back.
proof fn lemma_headers_read(
    block: Seq<u8>,
    pos: int,
    list: Seq<(Seq<u8>, Option<Seq<u8>>)>,
)
    requires
        block.len() <= records::ABSENT,
        stands(block, pos, headers(list)),
    ensures
        records::headers_from(block, pos, list.len()) == Ok::<
            Seq<(Seq<u8>, Option<Seq<u8>>)>,
            Flaw,
        >(list),
    decreases list.len(),
{
    if list.len() == 0 {
        assert(list =~= Seq::empty());
    } else {
        let (key, value) = list[0];
        let rest = list.drop_first();
        let first = sized(Some(key));
        let second = sized(value);
        lemma_stands_both(block, pos, first, second + headers(rest));
        lemma_stands_both(block, pos + first.len(), second, headers(rest));
        lemma_sized_reads(block, pos, Some(key));
        lemma_sized_reads(block, pos + first.len(), value);
        lemma_headers_read(block, pos + first.len() + second.len(), rest);
        assert(seq![list[0]] + rest =~= list);
    }
}

/// Whether what was read of a records section is a record of it.
pub open spec fn is_read(
    body: Seq<u8>,
    read: LeanRecord,
    entry: Entry,
    base_offset: i64,
    base_timestamp: i64,
) -> bool {
    &&& read.offset == base_offset.wrapping_add(entry.offset_delta)
    &&& read.timestamp == base_timestamp.wrapping_add(entry.timestamp_delta)
    &&& records::range_of(body, read.key) == entry.key
    &&& records::range_of(body, read.value) == entry.value
    &&& read.header_count == entry.headers.len()
    &&& records::headers_of(body, read) == Ok::<
        Seq<(Seq<u8>, Option<Seq<u8>>)>,
        Flaw,
    >(entry.headers)
}

/// Reading a record where it stands gives it back, and where the next one begins.
proof fn lemma_record_reads(
    body: Seq<u8>,
    pos: int,
    entry: Entry,
    base_offset: i64,
    base_timestamp: i64,
)
    requires
        body.len() < records::ABSENT,
        stands(body, pos, record(entry)),
    ensures
        records::record_at(body, pos, base_offset, base_timestamp) matches Ok((read, next)) && next
            == pos + record(entry).len() && is_read(
            body,
            read,
            entry,
            base_offset,
            base_timestamp,
        ),
{
    let size = fields(entry).len() as int;
    let end = pos + record(entry).len();
    let tail = headers(entry.headers);
    let count = varint(entry.headers.len() as int);
    let value = sized(entry.value);
    let key = sized(entry.key);
    let offset = varint(entry.offset_delta as int);
    let timestamp = varint(entry.timestamp_delta as int);
    lemma_stands_both(body, pos, varint(size), fields(entry));
    law_an_integer_reads_back(body, pos, size);
    let start = pos + varint(size).len();
    lemma_stands_both(
        body,
        start,
        seq![entry.attributes],
        timestamp + (offset + (key + (value + (count + tail)))),
    );
    let a = start + 1;
    lemma_stands_both(body, a, timestamp, offset + (key + (value + (count + tail))));
    law_an_integer_reads_back(body, a, entry.timestamp_delta as int);
    let b = a + timestamp.len();
    lemma_stands_both(body, b, offset, key + (value + (count + tail)));
    law_an_integer_reads_back(body, b, entry.offset_delta as int);
    let c = b + offset.len();
    lemma_stands_both(body, c, key, value + (count + tail));
    lemma_sized_reads(body, c, entry.key);
    let d = c + key.len();
    lemma_stands_both(body, d, value, count + tail);
    lemma_sized_reads(body, d, entry.value);
    let e = d + value.len();
    lemma_stands_both(body, e, count, tail);
    lemma_headers_len(entry.headers);
    law_an_integer_reads_back(body, e, entry.headers.len() as int);
    let f = e + count.len();
    assert(f + tail.len() == end);
    lemma_stands_slice(body, f, tail);
    assert(stands(tail, 0, tail));
    lemma_headers_read(tail, 0, entry.headers);
    if entry.headers.len() == 0 {
        assert(entry.headers =~= Seq::empty());
    }
}

proof fn lemma_one_record_more(
    body: Seq<u8>,
    pos: int,
    count: nat,
    base_offset: i64,
    base_timestamp: i64,
    first: LeanRecord,
    next: int,
    more: Seq<LeanRecord>,
)
    requires
        records::record_at(body, pos, base_offset, base_timestamp) == Ok::<
            (LeanRecord, int),
            Flaw,
        >((first, next)),
        records::records_from(body, next, count, base_offset, base_timestamp) == Ok::<
            Seq<LeanRecord>,
            Flaw,
        >(more),
    ensures
        records::records_from(body, pos, count + 1, base_offset, base_timestamp) == Ok::<
            Seq<LeanRecord>,
            Flaw,
        >(seq![first] + more),
{
}

/// Whether what was read of a records section are the records of it.
#[verifier::opaque]
spec fn all_read(
    body: Seq<u8>,
    list: Seq<LeanRecord>,
    entries: Seq<Entry>,
    base_offset: i64,
    base_timestamp: i64,
) -> bool {
    list.len() == entries.len() && forall|i: int|
        0 <= i < list.len() ==> is_read(
            body,
            #[trigger] list[i],
            entries[i],
            base_offset,
            base_timestamp,
        )
}

proof fn lemma_one_read_more(
    body: Seq<u8>,
    first: LeanRecord,
    more: Seq<LeanRecord>,
    entries: Seq<Entry>,
    base_offset: i64,
    base_timestamp: i64,
)
    requires
        entries.len() > 0,
        is_read(body, first, entries[0], base_offset, base_timestamp),
        all_read(body, more, entries.drop_first(), base_offset, base_timestamp),
    ensures
        all_read(body, seq![first] + more, entries, base_offset, base_timestamp),
{
    reveal(all_read);
    let list = seq![first] + more;
    let rest = entries.drop_first();
    assert forall|i: int| 0 <= i < list.len() implies is_read(
        body,
        #[trigger] list[i],
        entries[i],
        base_offset,
        base_timestamp,
    ) by {
        if i > 0 {
            assert(list[i] == more[i - 1]);
            assert(entries[i] == rest[i - 1]);
        }
    }
}

/// Reading the records of a section from where they stand on.
proof fn lemma_section_reads(
    body: Seq<u8>,
    pos: int,
    entries: Seq<Entry>,
    base_offset: i64,
    base_timestamp: i64,
)
    requires
        body.len() < records::ABSENT,
        stands(body, pos, section(entries)),
    ensures
        records::records_from(body, pos, entries.len(), base_offset, base_timestamp) matches Ok(
            list,
        ) && all_read(body, list, entries, base_offset, base_timestamp),
    decreases entries.len(),
{
    if entries.len() == 0 {
        reveal(all_read);
    } else {
        let rest = entries.drop_first();
        let size = record(entries[0]).len();
        lemma_stands_both(body, pos, record(entries[0]), section(rest));
        lemma_record_reads(body, pos, entries[0], base_offset, base_timestamp);
        lemma_section_reads(body, pos + size, rest, base_offset, base_timestamp);
        let (first, next) = records::record_at(body, pos, base_offset, base_timestamp)->Ok_0;
        let more = records::records_from(
            body,
            pos + size,
            rest.len(),
            base_offset,
            base_timestamp,
        )->Ok_0;
        lemma_one_record_more(
            body,
            pos,
            rest.len(),
            base_offset,
            base_timestamp,
            first,
            next,
            more,
        );
        lemma_one_read_more(body, first, more, entries, base_offset, base_timestamp);
    }
}

/// Whether some bytes are one whole version 2 batch of these records, compressed or not:
/// the length, the checksum and the number of records are right, and the records section,
/// once decompressed, is theirs.
pub open spec fn is_batch(bytes: Seq<u8>, entries: Seq<Entry>) -> bool {
    &&& records::batch_end(bytes, 0) == Some(bytes.len() as int)
    &&& bytes[records::MAGIC as int] == 2
    &&& records::header_of(bytes).crc == records::crc32c_of(
        bytes.subrange(records::CRC_FROM as int, bytes.len() as int),
    )
    &&& records::header_of(bytes).count == entries.len()
    &&& records::body_of(bytes) == Ok::<Seq<u8>, Flaw>(section(entries))
}

/// The lean reader gives back every record of a version 2 batch, with headers and without,
/// whatever codec the batch was compressed with: offsets and timestamps counted from the
/// batch's own, keys, values and headers as they were written, and whose the batch is as
/// its header says.
pub proof fn law_a_batch_reads_back(bytes: Seq<u8>, entries: Seq<Entry>)
    requires
        is_batch(bytes, entries),
        section(entries).len() < records::ABSENT,
    ensures
        records::batches_from(bytes, 0) matches Ok(Some(list)) && list.len() == 1 && {
            let header = records::header_of(bytes);
            let batch = list[0];
            &&& batch.body == section(entries)
            &&& batch.base_offset == header.base_offset
            &&& batch.producer_id == header.producer_id
            &&& batch.transactional == header.transactional
            &&& batch.control == header.control
            &&& batch.records.len() == entries.len()
            &&& forall|i: int|
                0 <= i < entries.len() ==> is_read(
                    batch.body,
                    #[trigger] batch.records[i],
                    entries[i],
                    header.base_offset,
                    header.base_timestamp,
                )
        },
{
    let header = records::header_of(bytes);
    let body = section(entries);
    assert(stands(body, 0, section(entries)));
    lemma_section_reads(body, 0, entries, header.base_offset, header.base_timestamp);
    reveal(all_read);
    assert(bytes.subrange(0, bytes.len() as int) =~= bytes);
    reveal(records::batch_of);
    assert(records::batch_end(bytes, bytes.len() as int) is None);
    assert(records::batches_from(bytes, bytes.len() as int) == Ok::<
        Option<Seq<records::Batch>>,
        Flaw,
    >(Some(Seq::empty())));
    let batch = records::batch_of(bytes)->Ok_0;
    assert(seq![batch] + Seq::empty() =~= seq![batch]);
}

/// How many values `n` bytes have.
pub open spec fn span(n: nat) -> nat
    decreases n,
{
    if n == 0 {
        1
    } else {
        256 * span((n - 1) as nat)
    }
}

/// The `n` big-endian bytes of a code.
pub open spec fn big_endian(code: nat, n: nat) -> Seq<u8>
    decreases n,
{
    if n == 0 {
        Seq::empty()
    } else {
        big_endian(code / 256, (n - 1) as nat).push((code % 256) as u8)
    }
}

/// The `n` big-endian bytes of an integer, in two's complement.
pub open spec fn word(value: int, n: nat) -> Seq<u8> {
    big_endian(
        (if value < 0 {
            value + span(n)
        } else {
            value
        }) as nat,
        n,
    )
}

proof fn lemma_big_endian_len(code: nat, n: nat)
    ensures
        big_endian(code, n).len() == n,
    decreases n,
{
    if n > 0 {
        lemma_big_endian_len(code / 256, (n - 1) as nat);
    }
}

proof fn lemma_big_endian_reads(s: Seq<u8>, at: int, code: nat, n: nat)
    requires
        stands(s, at, big_endian(code, n)),
        code < span(n),
    ensures
        wire::be_unsigned(s, at, n) == code,
    decreases n,
{
    lemma_big_endian_len(code, n);
    if n > 0 {
        let bytes = big_endian(code, n);
        let rest = big_endian(code / 256, (n - 1) as nat);
        lemma_big_endian_len(code / 256, (n - 1) as nat);
        assert(s[at + (n - 1)] == bytes[n - 1]);
        assert forall|i: int| 0 <= i < rest.len() implies #[trigger] s[at + i] == rest[i] by {
            assert(s[at + i] == bytes[i]);
        }
        lemma_big_endian_reads(s, at, code / 256, (n - 1) as nat);
    }
}

/// Reading a 64-bit integer where its bytes stand gives it back.
proof fn lemma_long_reads(s: Seq<u8>, at: int, value: i64)
    requires
        stands(s, at, word(value as int, 8)),
    ensures
        wire::i64_of(s, at) == value,
{
    assert(span(8) == 0x1_0000_0000_0000_0000) by {
        reveal_with_fuel(span, 9);
    }
    lemma_big_endian_reads(
        s,
        at,
        (if value < 0 {
            value + span(8)
        } else {
            value as int
        }) as nat,
        8,
    );
}

/// Reading a 32-bit integer where its bytes stand gives it back.
proof fn lemma_int_reads(s: Seq<u8>, at: int, value: i32)
    requires
        stands(s, at, word(value as int, 4)),
    ensures
        wire::i32_of(s, at) == value,
{
    assert(span(4) == 0x1_0000_0000) by {
        reveal_with_fuel(span, 5);
    }
    lemma_big_endian_reads(
        s,
        at,
        (if value < 0 {
            value + span(4)
        } else {
            value as int
        }) as nat,
        4,
    );
}

/// A batch to be written: what its header says beside what follows from the records, the
/// records, and the records section as the codec packed it.
pub ghost struct Written {
    pub base_offset: i64,
    pub partition_leader_epoch: i32,
    pub codec: u8,
    pub transactional: bool,
    pub control: bool,
    pub log_append_time: bool,
    pub last_offset_delta: i32,
    pub base_timestamp: i64,
    pub max_timestamp: i64,
    pub producer_id: i64,
    pub producer_epoch: i16,
    pub base_sequence: i32,
    pub entries: Seq<Entry>,
    pub packed: Seq<u8>,
}

/// The flags of a batch: the codec in the lowest three bits, then whose time the timestamps
/// are, whether the batch is of a transaction, and whether it is a marker.
pub open spec fn flags(batch: Written) -> u8 {
    (batch.codec + (if batch.log_append_time {
        8int
    } else {
        0
    }) + (if batch.transactional {
        16int
    } else {
        0
    }) + (if batch.control {
        32int
    } else {
        0
    })) as u8
}

/// What the checksum of a batch covers.
pub open spec fn covered(batch: Written) -> Seq<u8> {
    seq![0u8, flags(batch)] + (word(batch.last_offset_delta as int, 4) + (word(
        batch.base_timestamp as int,
        8,
    ) + (word(batch.max_timestamp as int, 8) + (word(batch.producer_id as int, 8) + (word(
        batch.producer_epoch as int,
        2,
    ) + (word(batch.base_sequence as int, 4) + (word(batch.entries.len() as int, 4)
        + batch.packed)))))))
}

/// The bytes of a version 2 batch.
pub open spec fn written(batch: Written) -> Seq<u8> {
    word(batch.base_offset as int, 8) + (word((9 + covered(batch).len()) as int, 4) + (word(
        batch.partition_leader_epoch as int,
        4,
    ) + (seq![2u8] + (word(records::crc32c_of(covered(batch)) as int, 4) + covered(batch)))))
}

/// The bytes of some version 2 batches, one behind the other.
pub open spec fn written_all(batches: Seq<Written>) -> Seq<u8>
    decreases batches.len(),
{
    if batches.len() == 0 {
        Seq::empty()
    } else {
        written(batches[0]) + written_all(batches.drop_first())
    }
}

/// Whether a batch can be written: the codec is none or one of the four and unpacks to what
/// it packed, and the lengths fit their fields.
pub open spec fn proper(batch: Written) -> bool {
    &&& batch.codec <= 4
    &&& if batch.codec == 0 {
        batch.packed == section(batch.entries)
    } else {
        codec::decompressed(batch.codec, batch.packed) == Ok::<
            Seq<u8>,
            Flaw,
        >(section(batch.entries))
    }
    &&& section(batch.entries).len() < records::ABSENT
    &&& batch.entries.len() <= i32::MAX
    &&& 9 + covered(batch).len() <= i32::MAX
}

/// Whether some batches can all be written.
pub open spec fn all_proper(batches: Seq<Written>) -> bool {
    forall|b: int| 0 <= b < batches.len() ==> proper(#[trigger] batches[b])
}

proof fn lemma_word_len(value: int, n: nat)
    ensures
        word(value, n).len() == n,
{
    lemma_big_endian_len(
        (if value < 0 {
            value + span(n)
        } else {
            value
        }) as nat,
        n,
    );
}

/// Where the fields of a written batch stand.
proof fn lemma_written_fields(batch: Written)
    ensures
        ({
            let bytes = written(batch);
            &&& bytes.len() == records::HEADER_LEN + batch.packed.len()
            &&& covered(batch).len() == records::HEADER_LEN - records::CRC_FROM
                + batch.packed.len()
            &&& stands(bytes, 0, word(batch.base_offset as int, 8))
            &&& stands(
                bytes,
                records::LENGTH as int,
                word((9 + covered(batch).len()) as int, 4),
            )
            &&& bytes[records::MAGIC as int] == 2
            &&& stands(
                bytes,
                records::CRC as int,
                word(records::crc32c_of(covered(batch)) as int, 4),
            )
            &&& stands(bytes, records::CRC_FROM as int, covered(batch))
            &&& bytes[records::FLAGS as int] == flags(batch)
            &&& stands(
                bytes,
                records::BASE_TIMESTAMP as int,
                word(batch.base_timestamp as int, 8),
            )
            &&& stands(bytes, records::PRODUCER_ID as int, word(batch.producer_id as int, 8))
            &&& stands(
                bytes,
                records::RECORD_COUNT as int,
                word(batch.entries.len() as int, 4),
            )
            &&& stands(bytes, records::HEADER_LEN as int, batch.packed)
        }),
{
    let bytes = written(batch);
    let tail = covered(batch);
    let length = word((9 + tail.len()) as int, 4);
    let epoch = word(batch.partition_leader_epoch as int, 4);
    let sum = word(records::crc32c_of(tail) as int, 4);
    lemma_word_len(batch.base_offset as int, 8);
    lemma_word_len((9 + tail.len()) as int, 4);
    lemma_word_len(batch.partition_leader_epoch as int, 4);
    lemma_word_len(records::crc32c_of(tail) as int, 4);
    assert(stands(bytes, 0, bytes));
    lemma_stands_both(
        bytes,
        0,
        word(batch.base_offset as int, 8),
        length + (epoch + (seq![2u8] + (sum + tail))),
    );
    lemma_stands_both(bytes, 8, length, epoch + (seq![2u8] + (sum + tail)));
    lemma_stands_both(bytes, 12, epoch, seq![2u8] + (sum + tail));
    lemma_stands_both(bytes, 16, seq![2u8], sum + tail);
    assert(bytes[16int + 0] == seq![2u8][0]);
    lemma_stands_both(bytes, 17, sum, tail);
    lemma_covered_fields(batch, bytes, 21);
}

proof fn lemma_covered_fields(batch: Written, bytes: Seq<u8>, at: int)
    requires
        stands(bytes, at, covered(batch)),
    ensures
        covered(batch).len() == records::HEADER_LEN - records::CRC_FROM + batch.packed.len(),
        bytes[at + 1] == flags(batch),
        stands(bytes, at + 6, word(batch.base_timestamp as int, 8)),
        stands(bytes, at + 22, word(batch.producer_id as int, 8)),
        stands(bytes, at + 36, word(batch.entries.len() as int, 4)),
        stands(bytes, at + 40, batch.packed),
{
    let two = seq![0u8, flags(batch)];
    let last = word(batch.last_offset_delta as int, 4);
    let first = word(batch.base_timestamp as int, 8);
    let latest = word(batch.max_timestamp as int, 8);
    let id = word(batch.producer_id as int, 8);
    let epoch = word(batch.producer_epoch as int, 2);
    let sequence = word(batch.base_sequence as int, 4);
    let count = word(batch.entries.len() as int, 4);
    lemma_word_len(batch.last_offset_delta as int, 4);
    lemma_word_len(batch.base_timestamp as int, 8);
    lemma_word_len(batch.max_timestamp as int, 8);
    lemma_word_len(batch.producer_id as int, 8);
    lemma_word_len(batch.producer_epoch as int, 2);
    lemma_word_len(batch.base_sequence as int, 4);
    lemma_word_len(batch.entries.len() as int, 4);
    let g = count + batch.packed;
    let f = sequence + g;
    let e = epoch + f;
    let d = id + e;
    let c = latest + d;
    let b = first + c;
    let a = last + b;
    lemma_stands_both(bytes, at, two, a);
    assert(bytes[at + 1] == two[1]);
    lemma_stands_both(bytes, at + 2, last, b);
    lemma_stands_both(bytes, at + 6, first, c);
    lemma_stands_both(bytes, at + 14, latest, d);
    lemma_stands_both(bytes, at + 22, id, e);
    lemma_stands_both(bytes, at + 30, epoch, f);
    lemma_stands_both(bytes, at + 32, sequence, g);
    lemma_stands_both(bytes, at + 36, count, batch.packed);
}

/// The flags say what they were made of.
proof fn lemma_flags(batch: Written)
    requires
        batch.codec <= 4,
    ensures
        flags(batch) % 8 == batch.codec,
        (flags(batch) / 16) % 2 == 1 <==> batch.transactional,
        (flags(batch) / 32) % 2 == 1 <==> batch.control,
{
}

/// The header of what is written is the one that it was given.
proof fn lemma_header_reads(batch: Written)
    requires
        batch.codec <= 4,
        batch.entries.len() <= i32::MAX,
    ensures
        records::header_of(written(batch)) == (records::BatchHeader {
            base_offset: batch.base_offset,
            base_timestamp: batch.base_timestamp,
            producer_id: batch.producer_id,
            count: batch.entries.len() as usize,
            crc: records::crc32c_of(covered(batch)),
            codec: batch.codec,
            transactional: batch.transactional,
            control: batch.control,
        }),
{
    let bytes = written(batch);
    let crc = records::crc32c_of(covered(batch));
    lemma_written_fields(batch);
    lemma_flags(batch);
    lemma_long_reads(bytes, 0, batch.base_offset);
    lemma_long_reads(bytes, records::BASE_TIMESTAMP as int, batch.base_timestamp);
    lemma_long_reads(bytes, records::PRODUCER_ID as int, batch.producer_id);
    lemma_int_reads(bytes, records::RECORD_COUNT as int, batch.entries.len() as i32);
    assert(span(4) == 0x1_0000_0000) by {
        reveal_with_fuel(span, 5);
    }
    lemma_big_endian_reads(bytes, records::CRC as int, crc as nat, 4);
}

/// What is written is one whole batch of its records.
proof fn lemma_written_is_a_batch(batch: Written)
    requires
        proper(batch),
    ensures
        is_batch(written(batch), batch.entries),
{
    let bytes = written(batch);
    let tail = covered(batch);
    lemma_header_reads(batch);
    assert(records::batch_end(bytes, 0) == Some(bytes.len() as int) && bytes[records::MAGIC as int]
        == 2) by {
        lemma_written_fields(batch);
        lemma_int_reads(bytes, records::LENGTH as int, (9 + tail.len()) as i32);
    }
    assert(bytes.subrange(records::CRC_FROM as int, bytes.len() as int) == tail && bytes.subrange(
        records::HEADER_LEN as int,
        bytes.len() as int,
    ) == batch.packed) by {
        lemma_written_fields(batch);
        lemma_stands_slice(bytes, records::CRC_FROM as int, tail);
        lemma_stands_slice(bytes, records::HEADER_LEN as int, batch.packed);
    }
}

/// A record as whoever wrote it, or reads it, knows it: where it stands, when it was
/// written, what it holds, and which producer wrote it.
#[verifier::ext_equal]
pub ghost struct Line {
    pub offset: i64,
    pub timestamp: i64,
    pub key: Option<Seq<u8>>,
    pub value: Option<Seq<u8>>,
    pub headers: Result<Seq<(Seq<u8>, Option<Seq<u8>>)>, Flaw>,
    pub producer_id: i64,
}

/// The records of a batch that was written.
pub open spec fn lines_written(batch: Written) -> Seq<Line> {
    batch.entries.map_values(
        |entry: Entry|
            Line {
                offset: batch.base_offset.wrapping_add(entry.offset_delta),
                timestamp: batch.base_timestamp.wrapping_add(entry.timestamp_delta),
                key: entry.key,
                value: entry.value,
                headers: Ok(entry.headers),
                producer_id: batch.producer_id,
            },
    )
}

/// The records of a batch that was read, as its methods hand them out.
pub open spec fn lines_read(batch: Batch) -> Seq<Line> {
    batch.records.map_values(
        |read: LeanRecord|
            Line {
                offset: read.offset,
                timestamp: read.timestamp,
                key: records::range_of(batch.body, read.key),
                value: records::range_of(batch.body, read.value),
                headers: records::headers_of(batch.body, read),
                producer_id: batch.producer_id,
            },
    )
}

/// The records of some batches that were written, in order.
pub open spec fn all_lines_written(batches: Seq<Written>) -> Seq<Line>
    decreases batches.len(),
{
    if batches.len() == 0 {
        Seq::empty()
    } else {
        lines_written(batches[0]) + all_lines_written(batches.drop_first())
    }
}

/// The records of some batches that were read, in order.
pub open spec fn all_lines_read(batches: Seq<Batch>) -> Seq<Line>
    decreases batches.len(),
{
    if batches.len() == 0 {
        Seq::empty()
    } else {
        lines_read(batches[0]) + all_lines_read(batches.drop_first())
    }
}

/// Whether a batch that was read is the one that was written.
pub open spec fn same_batch(read: Batch, batch: Written) -> bool {
    &&& read.base_offset == batch.base_offset
    &&& read.producer_id == batch.producer_id
    &&& read.transactional == batch.transactional
    &&& read.control == batch.control
    &&& lines_read(read) == lines_written(batch)
}

/// One written batch is read back.
proof fn lemma_one_reads_back(batch: Written)
    requires
        proper(batch),
    ensures
        records::batches_from(written(batch), 0) matches Ok(Some(list)) && list.len() == 1
            && same_batch(list[0], batch),
        records::batch_end(written(batch), 0) == Some(written(batch).len() as int),
{
    let bytes = written(batch);
    lemma_header_reads(batch);
    lemma_written_is_a_batch(batch);
    law_a_batch_reads_back(bytes, batch.entries);
    let read = records::batches_from(bytes, 0)->Ok_0->Some_0[0];
    let (one, other) = (lines_read(read), lines_written(batch));
    assert forall|i: int| 0 <= i < one.len() implies one[i] == other[i] by {
        assert(is_read(
            read.body,
            read.records[i],
            batch.entries[i],
            batch.base_offset,
            batch.base_timestamp,
        ));
    }
    assert(one =~= other);
}

/// Reading gives back what was written: of version 2 batches, one behind the other, with
/// record headers or without, uncompressed or compressed with any of the codecs, the lean
/// reader gives every record in order, with its offset, its timestamp, its key and its value
/// (an absent one is not an empty one), its headers and its producer.
pub proof fn law_what_is_written_reads_back(batches: Seq<Written>)
    requires
        all_proper(batches),
    ensures
        records::batches_from(written_all(batches), 0) matches Ok(Some(read)) && {
            &&& read.len() == batches.len()
            &&& forall|b: int|
                0 <= b < batches.len() ==> same_batch(#[trigger] read[b], batches[b])
            &&& all_lines_read(read) == all_lines_written(batches)
        },
    decreases batches.len(),
{
    if batches.len() == 0 {
        assert(records::batch_end(written_all(batches), 0) is None);
    } else {
        let rest = batches.drop_first();
        let bytes = written(batches[0]);
        assert forall|b: int| 0 <= b < rest.len() implies proper(#[trigger] rest[b]) by {
            assert(rest[b] == batches[b + 1]);
        }
        law_what_is_written_reads_back(rest);
        lemma_one_reads_back(batches[0]);
        assert(records::only_whole(bytes, bytes.len() as int));
        assert(records::only_whole(bytes, 0));
        records::law_batches_are_read_in_turn(bytes, written_all(rest));
        let first = records::batches_from(bytes, 0)->Ok_0->Some_0;
        let more = records::batches_from(written_all(rest), 0)->Ok_0->Some_0;
        let read = first + more;
        assert(read.drop_first() =~= more);
        assert(read[0] == first[0]);
        assert forall|b: int| 0 <= b < batches.len() implies same_batch(
            #[trigger] read[b],
            batches[b],
        ) by {
            if b > 0 {
                assert(read[b] == more[b - 1]);
                assert(batches[b] == rest[b - 1]);
            }
        }
    }
}

/// Whether reading some bytes gave back what was written, if they are batches that were
/// written.
pub open spec fn gives_back(
    bytes: Seq<u8>,
    read: Result<Option<Seq<Batch>>, Flaw>,
) -> bool {
    forall|batches: Seq<Written>|
        all_proper(batches) && #[trigger] written_all(batches) == bytes ==> (read matches Ok(
            Some(list),
        ) && all_lines_read(list) == all_lines_written(batches))
}

pub(crate) proof fn lemma_gives_back(bytes: Seq<u8>)
    ensures
        gives_back(bytes, records::batches_from(bytes, 0)),
{
    assert forall|batches: Seq<Written>|
        all_proper(batches) && #[trigger] written_all(batches) == bytes implies (
    records::batches_from(bytes, 0) matches Ok(Some(list)) && all_lines_read(list)
        == all_lines_written(batches)) by {
        law_what_is_written_reads_back(batches);
    }
}

} // verus!
