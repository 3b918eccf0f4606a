//! A bare walk over the records of one uncompressed batch, for measuring what parsing
//! alone costs beside what is built from it.
//!
//! It trusts the batch: [`records`](crate::records) is the reader for bytes off a socket.
use crate::buffer;
use crate::records;
use crate::wire;
use bytes::Bytes;
use vstd::prelude::*;

verus! {

/// Where the records begin.
pub const HEADER: usize = 61;

/// Where one record's parts lie.
pub ghost struct Entry {
    pub offset_delta: i64,
    /// Where the key begins, and its length; no key and an empty one are the same.
    pub key: (int, int),
    /// Where the value begins, and its length.
    pub value: (int, int),
    /// Where the next record begins.
    pub end: int,
}

/// A part's place, the same one for every part that is absent or empty.
pub open spec fn place(at: int, len: i64) -> (int, int) {
    if len > 0 {
        (at, len as int)
    } else {
        (0, 0)
    }
}

/// A length, zero for an absent part.
pub open spec fn length(len: i64) -> int {
    if len > 0 {
        len as int
    } else {
        0
    }
}

/// The record at `pos`, `None` where one of its integers is cut off or its length is
/// negative. The value itself is not walked: the record's length says where the next
/// one begins.
pub open spec fn entry_at(buf: Seq<u8>, pos: int) -> Option<Entry> {
    match wire::varint_at(buf, pos) {
        None => None,
        Some((len, start)) => if len < 0 {
            None
        } else {
            match wire::varint_at(buf, start + 1) {
                None => None,
                Some((_, p)) => match wire::varint_at(buf, p) {
                    None => None,
                    Some((offset_delta, p)) => match wire::varint_at(buf, p) {
                        None => None,
                        Some((key_len, key_at)) => match wire::varint_at(
                            buf,
                            key_at + length(key_len),
                        ) {
                            None => None,
                            Some((value_len, value_at)) => Some(
                                Entry {
                                    offset_delta,
                                    key: place(key_at, key_len),
                                    value: place(value_at, value_len),
                                    end: start + len,
                                },
                            ),
                        },
                    },
                },
            }
        },
    }
}

/// Whether `n` records can be walked from `pos` on.
pub open spec fn walkable(buf: Seq<u8>, pos: int, n: nat) -> bool
    decreases n,
{
    n > 0 ==> match entry_at(buf, pos) {
        None => false,
        Some(entry) => entry.end <= usize::MAX && walkable(buf, entry.end, (n - 1) as nat),
    }
}

/// The `n` records from `pos` on.
pub open spec fn entries(buf: Seq<u8>, pos: int, n: nat) -> Seq<Entry>
    decreases n,
{
    if n == 0 {
        Seq::empty()
    } else {
        match entry_at(buf, pos) {
            None => Seq::empty(),
            Some(entry) => seq![entry] + entries(buf, entry.end, (n - 1) as nat),
        }
    }
}

/// How many records a batch says it has; a negative count is none.
pub open spec fn count_of(buf: Seq<u8>) -> nat {
    let count = wire::i32_of(buf, records::RECORD_COUNT as int);
    if count > 0 {
        count as nat
    } else {
        0
    }
}

/// Whether a buffer is a batch whose records can all be walked.
pub open spec fn is_batch(buf: Seq<u8>) -> bool {
    buf.len() >= HEADER && walkable(buf, HEADER as int, count_of(buf))
}

/// The records of a batch.
pub open spec fn entries_of(buf: Seq<u8>) -> Seq<Entry> {
    entries(buf, HEADER as int, count_of(buf))
}

proof fn lemma_entries(buf: Seq<u8>, pos: int, n: nat)
    requires
        walkable(buf, pos, n),
    ensures
        entries(buf, pos, n).len() == n,
    decreases n,
{
    if n > 0 {
        lemma_entries(buf, entry_at(buf, pos)->Some_0.end, (n - 1) as nat);
    }
}

/// An integer that is known to be there.
fn varint(buf: &[u8], pos: &mut usize) -> (value: i64)
    requires
        wire::varint_at(buf@, *old(pos) as int) is Some,
    ensures
        wire::varint_at(buf@, *old(pos) as int) == Some((value, *final(pos) as int)),
        *old(pos) < *final(pos) <= buf@.len(),
{
    proof {
        wire::lemma_varint_at(buf@, *pos as int);
    }
    match wire::varint(buf, pos) {
        Some(value) => value,
        None => 0,
    }
}

/// The number of records that a batch says it has, none for a negative one.
pub fn record_count(buf: &[u8]) -> (count: usize)
    requires
        buf@.len() >= HEADER,
    ensures
        count == count_of(buf@),
{
    match wire::i32_at(buf, records::RECORD_COUNT) {
        Some(count) => if count > 0 {
            count as usize
        } else {
            0
        },
        None => 0,
    }
}

/// Where one record's parts lie.
struct Parts {
    offset_delta: i64,
    key: (usize, i64),
    value: (usize, i64),
    end: usize,
}

fn parts(buf: &[u8], at: usize) -> (parts: Parts)
    requires
        entry_at(buf@, at as int) is Some,
        entry_at(buf@, at as int)->Some_0.end <= usize::MAX,
    ensures
        entry_at(buf@, at as int) == Some(
            (Entry {
                offset_delta: parts.offset_delta,
                key: place(parts.key.0 as int, parts.key.1),
                value: place(parts.value.0 as int, parts.value.1),
                end: parts.end as int,
            }),
        ),
        parts.key.1 > 0 ==> parts.key.1 <= usize::MAX,
{
    let size: usize = buf.len();
    let mut pos: usize = at;
    let len: i64 = varint(buf, &mut pos);
    let end: usize = pos + len as usize;
    proof {
        wire::lemma_varint_at(buf@, pos + 1);
        assert(pos + 1 < size);
    }
    pos = pos + 1;
    varint(buf, &mut pos);
    let offset_delta: i64 = varint(buf, &mut pos);
    let key_len: i64 = varint(buf, &mut pos);
    let key_at: usize = pos;
    proof {
        wire::lemma_varint_at(buf@, key_at + length(key_len));
        assert(key_at + length(key_len) < size);
    }
    if key_len > 0 {
        pos = pos + key_len as usize;
    }
    let value_len: i64 = varint(buf, &mut pos);
    Parts { offset_delta, key: (key_at, key_len), value: (pos, value_len), end }
}

/// Walks every record, and keeps nothing but their number.
pub fn parse_only(buf: &[u8]) -> (count: usize)
    requires
        is_batch(buf@),
    ensures
        count == entries_of(buf@).len(),
        count == count_of(buf@),
{
    let count: usize = record_count(buf);
    let mut pos: usize = HEADER;
    let mut i: usize = 0;
    proof {
        lemma_entries(buf@, HEADER as int, count as nat);
    }
    while i < count
        invariant
            i <= count,
            walkable(buf@, pos as int, (count - i) as nat),
        decreases count - i,
    {
        pos = parts(buf, pos).end;
        i = i + 1;
    }
    count
}

/// One record, as positions in its batch: no reference counts, no copies.
#[derive(Debug, Clone, Copy, PartialEq, Eq)]
pub struct Slim {
    pub offset: i64,
    /// Where the key begins, and its length; both zero where there is none.
    pub key: (u32, u32),
    /// Where the value begins, and its length; both zero where there is none.
    pub value: (u32, u32),
}

/// Whether every record's offset fits.
pub open spec fn offsets_fit(buf: Seq<u8>) -> bool {
    forall|i: int|
        0 <= i < entries_of(buf).len() ==> i64::MIN <= wire::i64_of(buf, 0) + (
        #[trigger] entries_of(buf)[i]).offset_delta <= i64::MAX
}

/// What is kept of a record.
pub open spec fn slim(base_offset: i64, entry: Entry) -> Slim {
    Slim {
        offset: (base_offset + entry.offset_delta) as i64,
        key: (entry.key.0 as u32, entry.key.1 as u32),
        value: (entry.value.0 as u32, entry.value.1 as u32),
    }
}

/// Walks every record, and keeps where its parts lie.
pub fn lean_offsets(buf: &[u8]) -> (out: Vec<Slim>)
    requires
        is_batch(buf@),
        offsets_fit(buf@),
    ensures
        out@ == entries_of(buf@).map_values(|entry: Entry| slim(wire::i64_of(buf@, 0), entry)),
{
    let count: usize = record_count(buf);
    let base_offset: i64 = match wire::i64_at(buf, 0) {
        Some(offset) => offset,
        None => 0,
    };
    let ghost all = entries_of(buf@);
    let ghost f = |entry: Entry| slim(base_offset, entry);
    let mut out: Vec<Slim> = Vec::new();
    let mut pos: usize = HEADER;
    let mut i: usize = 0;
    proof {
        lemma_entries(buf@, HEADER as int, count as nat);
        assert(all =~= Seq::empty() + entries(buf@, pos as int, count as nat));
    }
    while i < count
        invariant
            i <= count,
            walkable(buf@, pos as int, (count - i) as nat),
            base_offset == wire::i64_of(buf@, 0),
            all == entries_of(buf@),
            all.len() == count,
            offsets_fit(buf@),
            out@.len() == i,
            forall|k: int| 0 <= k < i ==> out@[k] == slim(base_offset, #[trigger] all[k]),
            all.skip(i as int) == entries(buf@, pos as int, (count - i) as nat),
        decreases count - i,
    {
        let ghost entry = entry_at(buf@, pos as int)->Some_0;
        proof {
            assert(all.skip(i as int)[0] == entry);
            assert(all[i as int] == entry);
            assert(all.skip(i as int).skip(1) =~= all.skip(i + 1));
            assert(all.skip(i as int).skip(1) =~= entries(
                buf@,
                entry.end,
                (count - i - 1) as nat,
            ));
        }
        let found = parts(buf, pos);
        let key: (u32, u32) = if found.key.1 > 0 {
            (found.key.0 as u32, found.key.1 as u32)
        } else {
            (0, 0)
        };
        let value: (u32, u32) = if found.value.1 > 0 {
            (found.value.0 as u32, found.value.1 as u32)
        } else {
            (0, 0)
        };
        let offset: i64 = base_offset + found.offset_delta;
        out.push(Slim { offset, key, value });
        pos = found.end;
        i = i + 1;
    }
    assert(out@ =~= all.map_values(f));
    out
}

/// Whether a place lies inside `n` bytes.
pub open spec fn lies_in(place: (u32, u32), n: nat) -> bool {
    place.0 + place.1 <= n && place.0 + place.1 <= u32::MAX
}

/// What is kept of a record, with its parts.
pub open spec fn sliced(buf: Seq<u8>, record: Slim) -> (i64, Seq<u8>, Seq<u8>) {
    (
        record.offset,
        buf.subrange(record.key.0 as int, record.key.0 + record.key.1),
        buf.subrange(record.value.0 as int, record.value.0 + record.value.1),
    )
}

/// What a list of records with their parts stands for.
pub open spec fn slices_of(list: Seq<(i64, Bytes, Bytes)>) -> Seq<(i64, Seq<u8>, Seq<u8>)> {
    Seq::new(
        list.len(),
        |i: int| (list[i].0, buffer::contents(list[i].1), buffer::contents(list[i].2)),
    )
}

/// Walks every record, and keeps its parts as slices of the batch.
pub fn lean_bytes(batch: &Bytes) -> (out: Vec<(i64, Bytes, Bytes)>)
    requires
        is_batch(buffer::contents(*batch)),
        offsets_fit(buffer::contents(*batch)),
        forall|i: int|
            0 <= i < entries_of(buffer::contents(*batch)).len() ==> {
                let record = slim(0, #[trigger] entries_of(buffer::contents(*batch))[i]);
                &&& lies_in(record.key, buffer::contents(*batch).len())
                &&& lies_in(record.value, buffer::contents(*batch).len())
            },
    ensures
        ({
            let buf = buffer::contents(*batch);
            slices_of(out@) == entries_of(buf).map_values(
                |entry: Entry| sliced(buf, slim(wire::i64_of(buf, 0), entry)),
            )
        }),
{
    let ghost buf = buffer::contents(*batch);
    let ghost all = entries_of(buf);
    let ghost base = wire::i64_of(buf, 0);
    let found = lean_offsets(buffer::as_slice(batch));
    let mut out: Vec<(i64, Bytes, Bytes)> = Vec::new();
    let mut i: usize = 0;
    while i < found.len()
        invariant
            i <= found@.len(),
            buf == buffer::contents(*batch),
            all == entries_of(buf),
            found@.len() == all.len(),
            forall|k: int| 0 <= k < all.len() ==> found@[k] == slim(base, #[trigger] all[k]),
            forall|k: int|
                0 <= k < all.len() ==> lies_in(slim(0, #[trigger] all[k]).key, buf.len())
                    && lies_in(slim(0, all[k]).value, buf.len()),
            out@.len() == i,
            forall|k: int|
                0 <= k < i ==> slices_of(out@)[k] == sliced(buf, slim(base, #[trigger] all[k])),
        decreases found@.len() - i,
    {
        let record = found[i];
        assert(record == slim(base, all[i as int]));
        assert(lies_in(slim(0, all[i as int]).key, buf.len()));
        let key = buffer::narrow(
            batch,
            record.key.0 as usize,
            (record.key.0 + record.key.1) as usize,
        );
        let value = buffer::narrow(
            batch,
            record.value.0 as usize,
            (record.value.0 + record.value.1) as usize,
        );
        let ghost before = out@;
        out.push((record.offset, key, value));
        assert forall|k: int| 0 <= k < i + 1 implies slices_of(out@)[k] == sliced(
            buf,
            slim(base, #[trigger] all[k]),
        ) by {
            if k < i {
                assert(slices_of(before)[k] == sliced(buf, slim(base, all[k])));
            }
        }
        i = i + 1;
    }
    assert(slices_of(out@) =~= all.map_values(
        |entry: Entry| sliced(buf, slim(base, entry)),
    ));
    out
}

/// The bare walk finds what the reader finds: of a record whose length is not negative the
/// same offset and the same end, and key and value at the same places, where they are not
/// empty.
pub proof fn law_the_bare_walk_finds_the_same_record(
    buf: Seq<u8>,
    pos: int,
    base_offset: i64,
    base_timestamp: i64,
)
    requires
        0 <= pos,
        buf.len() <= u32::MAX,
        wire::varint_at(buf, pos) matches Some((len, _)) && len >= 0,
        records::record_at(buf, pos, base_offset, base_timestamp) is Ok,
    ensures
        ({
            let (record, end) = records::record_at(buf, pos, base_offset, base_timestamp)->Ok_0;
            &&& entry_at(buf, pos) matches Some(entry)
            &&& entry.end == end
            &&& base_offset.wrapping_add(entry.offset_delta) == record.offset
            &&& entry.key.1 > 0 ==> record.key.0 == entry.key.0 && record.key.1 == entry.key.1
            &&& entry.key.1 == 0 ==> record.key.1 == 0
            &&& entry.value.1 > 0 ==> record.value.0 == entry.value.0
            &&& entry.value.1 == 0 ==> record.value.1 == 0
        }),
{
    let (len, start) = wire::varint_at(buf, pos).unwrap();
    wire::lemma_varint_at(buf, pos);
    let (_, p) = wire::varint_at(buf, start + 1).unwrap();
    wire::lemma_varint_at(buf, start + 1);
    let (_, q) = wire::varint_at(buf, p).unwrap();
    wire::lemma_varint_at(buf, p);
    let (key_len, key_at) = wire::varint_at(buf, q).unwrap();
    wire::lemma_varint_at(buf, q);
    let (value_len, value_at) = wire::varint_at(buf, key_at + length(key_len)).unwrap();
    wire::lemma_varint_at(buf, key_at + length(key_len));
}

/// What is kept of a record: its offset counted from the batch's first, and where its key and
/// value lie; cut out of the batch they are the bytes at those places.
pub proof fn law_a_slim_record_says_where_its_parts_lie(
    buf: Seq<u8>,
    base_offset: i64,
    entry: Entry,
)
    requires
        i64::MIN <= base_offset + entry.offset_delta <= i64::MAX,
        0 <= entry.key.0 <= entry.key.0 + entry.key.1 <= buf.len() <= u32::MAX,
        0 <= entry.key.1,
        0 <= entry.value.0 <= entry.value.0 + entry.value.1 <= buf.len(),
        0 <= entry.value.1,
    ensures
        slim(base_offset, entry).offset == base_offset + entry.offset_delta,
        sliced(buf, slim(base_offset, entry)).0 == base_offset + entry.offset_delta,
        sliced(buf, slim(base_offset, entry)).1 == buf.subrange(
            entry.key.0,
            entry.key.0 + entry.key.1,
        ),
        sliced(buf, slim(base_offset, entry)).2 == buf.subrange(
            entry.value.0,
            entry.value.0 + entry.value.1,
        ),
{
}

/// Records are walked one after the other, from where the last one ended, as many as the
/// batch says it has; a negative number is none.
pub proof fn law_records_are_walked_in_turn(buf: Seq<u8>, pos: int, n: nat, i: int)
    requires
        walkable(buf, pos, n),
        0 <= i < n,
    ensures
        entries(buf, pos, n).len() == n,
        i == 0 ==> entry_at(buf, pos) == Some(entries(buf, pos, n)[i]),
        i > 0 ==> entry_at(buf, entries(buf, pos, n)[i - 1].end) == Some(entries(buf, pos, n)[i]),
        wire::i32_of(buf, 57) >= 0 ==> count_of(buf) == wire::i32_of(buf, 57),
        wire::i32_of(buf, 57) < 0 ==> count_of(buf) == 0,
    decreases n,
{
    lemma_entries(buf, pos, n);
    let first = entry_at(buf, pos).unwrap();
    let rest = entries(buf, first.end, (n - 1) as nat);
    assert(entries(buf, pos, n) == seq![first] + rest);
    if i > 0 {
        law_records_are_walked_in_turn(buf, first.end, (n - 1) as nat, i - 1);
        assert(entries(buf, pos, n)[i] == rest[i - 1]);
        if i > 1 {
            assert(entries(buf, pos, n)[i - 1] == rest[i - 2]);
        }
    }
}

} // verus!
