//! One record, without a record having been built for it.
use crate::buffer;
use crate::client::{Error, Fault};
use crate::consumer;
use crate::consumer::Record;
use crate::error;
use crate::error::Flaw;
use crate::fetching;
use crate::fetching::ConsumerRecords;
use crate::names;
use crate::records;
use crate::records::{LeanBatch, LeanRecord};
use bytes::Bytes;
use vstd::prelude::*;
use vstd::string::StrSliceExecFns;

verus! {

/// One record, whichever reader read it. A key, value or header list is made when it is
/// asked for: every slice of a batch's buffer counts a reference, and a caller that
/// skips a record does not pay for it.
#[derive(Debug, Clone, Copy)]
pub enum RecordRef<'a> {
    Lean { batch: &'a LeanBatch, record: &'a LeanRecord },
    /// Of a batch that the lean reader handed back.
    Full(&'a Record),
}

/// What a record holds.
pub ghost struct Seen {
    pub offset: i64,
    pub timestamp: i64,
    pub key: Option<Seq<u8>>,
    pub value: Option<Seq<u8>>,
    /// The headers, or why they cannot be read.
    pub headers: Result<Seq<(Seq<u8>, Option<Seq<u8>>)>, Flaw>,
}

/// What a lean record of a batch holds.
pub open spec fn lean_seen(batch: records::Batch, record: LeanRecord) -> Seen {
    Seen {
        offset: record.offset,
        timestamp: record.timestamp,
        key: records::range_of(batch.body, record.key),
        value: records::range_of(batch.body, record.value),
        headers: records::headers_of(batch.body, record),
    }
}

/// What a record in full holds.
pub open spec fn full_seen(record: consumer::FullRecord) -> Seen {
    Seen {
        offset: record.offset,
        timestamp: record.timestamp,
        key: record.key,
        value: record.value,
        headers: Ok(full_headers(record.headers)),
    }
}

impl<'a> View for RecordRef<'a> {
    type V = Seen;

    open spec fn view(&self) -> Seen {
        match self {
            RecordRef::Lean { batch, record } => lean_seen(batch@, **record),
            RecordRef::Full(record) => full_seen(record@),
        }
    }
}

/// The headers of a record in full, their names as bytes.
pub open spec fn full_headers(headers: Seq<(Seq<char>, Option<Seq<u8>>)>) -> Seq<
    (Seq<u8>, Option<Seq<u8>>),
> {
    Seq::new(headers.len(), |i: int| (names::utf8(headers[i].0), headers[i].1))
}

fn copy(bytes: &Option<Bytes>) -> (out: Option<Bytes>)
    ensures
        records::optional_contents(out) == records::optional_contents(*bytes),
{
    match bytes {
        Some(b) => Some(b.clone()),
        None => None,
    }
}

impl<'a> RecordRef<'a> {
    /// Whether the record lies inside its batch.
    pub open spec fn well_formed(&self) -> bool {
        match self {
            RecordRef::Lean { batch, record } => records::range_fits(
                record.key,
                batch@.body.len(),
            ) && records::range_fits(record.value, batch@.body.len()),
            RecordRef::Full(_) => true,
        }
    }

    pub fn offset(&self) -> (offset: i64)
        ensures
            offset == self@.offset,
    {
        match self {
            RecordRef::Lean { record, .. } => record.offset,
            RecordRef::Full(record) => record.offset,
        }
    }

    pub fn timestamp(&self) -> (timestamp: i64)
        ensures
            timestamp == self@.timestamp,
    {
        match self {
            RecordRef::Lean { record, .. } => record.timestamp,
            RecordRef::Full(record) => record.timestamp,
        }
    }

    pub fn key(&self) -> (key: Option<Bytes>)
        requires
            self.well_formed(),
        ensures
            records::optional_contents(key) == self@.key,
    {
        match self {
            RecordRef::Lean { batch, record } => batch.key(record),
            RecordRef::Full(record) => copy(&record.key),
        }
    }

    pub fn value(&self) -> (value: Option<Bytes>)
        requires
            self.well_formed(),
        ensures
            records::optional_contents(value) == self@.value,
    {
        match self {
            RecordRef::Lean { batch, record } => batch.value(record),
            RecordRef::Full(record) => copy(&record.value),
        }
    }

    /// The record's headers; an error where their block is malformed.
    pub fn headers(&self) -> (headers: Result<Vec<(Bytes, Option<Bytes>)>, Error>)
        ensures
            match self@.headers {
                Ok(list) => headers matches Ok(h) && records::header_contents(h@) == list,
                Err(e) => headers is Err && headers->Err_0@ == Fault::Core(e),
            },
    {
        match self {
            RecordRef::Lean { batch, record } => match batch.headers(record) {
                Ok(list) => Ok(list),
                Err(e) => Err(Error::Core(e)),
            },
            RecordRef::Full(record) => {
                let mut list: Vec<(Bytes, Option<Bytes>)> = Vec::new();
                let mut i: usize = 0;
                while i < record.headers.len()
                    invariant
                        i <= record.headers@.len(),
                        list@.len() == i,
                        forall|k: int|
                            0 <= k < i ==> buffer::contents((#[trigger] list@[k]).0)
                                == names::utf8(record.headers@[k].0@)
                                && records::optional_contents(list@[k].1)
                                == records::optional_contents(record.headers@[k].1),
                    decreases record.headers@.len() - i,
                {
                    let name = buffer::from_vec(record.headers[i].0.as_str().as_bytes_vec());
                    list.push((name, copy(&record.headers[i].1)));
                    i = i + 1;
                }
                assert(records::header_contents(list@) =~= full_headers(record@.headers));
                Ok(list)
            },
        }
    }
}

/// What the records of a batch hold.
pub open spec fn batch_seen(batch: records::Batch) -> Seq<Seen> {
    batch.records.map_values(|r: LeanRecord| lean_seen(batch, r))
}

/// What the records of the first `n` batches hold.
pub open spec fn batches_seen(batches: Seq<records::Batch>, n: nat) -> Seq<Seen>
    decreases n,
{
    if n == 0 {
        Seq::empty()
    } else {
        batches_seen(batches, (n - 1) as nat) + batch_seen(batches[n - 1])
    }
}

/// What a partition yielded, record by record.
pub open spec fn all_seen(got: fetching::Yield) -> Seq<Seen> {
    batches_seen(got.batches, got.batches.len()) + got.fallback.map_values(
        |r: consumer::FullRecord| full_seen(r),
    )
}

/// Whether every record lies inside its batch.
pub open spec fn all_fit(batches: Seq<records::Batch>) -> bool {
    forall|i: int| 0 <= i < batches.len() ==> (#[trigger] batches[i]).well_formed()
}

/// What a list of records holds.
pub open spec fn seen_of(list: Seq<RecordRef>) -> Seq<Seen> {
    Seq::new(list.len(), |i: int| list[i]@)
}

/// How many records the first `n` batches hold.
pub open spec fn records_in(batches: Seq<records::Batch>, n: nat) -> nat
    decreases n,
{
    if n == 0 {
        0
    } else {
        records_in(batches, (n - 1) as nat) + batches[n - 1].records.len()
    }
}

impl ConsumerRecords {
    /// Every record, whichever reader read it. Records live in batches because that is
    /// how the format stores them; a caller rarely cares which one it came from.
    pub fn iter(&self) -> (list: Vec<RecordRef<'_>>)
        ensures
            seen_of(list@) == all_seen(self@),
            all_fit(self@.batches) ==> forall|k: int|
                0 <= k < list@.len() ==> (#[trigger] list@[k]).well_formed(),
    {
        let mut list: Vec<RecordRef<'_>> = Vec::new();
        let ghost batches = self@.batches;
        assert(seen_of(list@) =~= Seq::empty());
        let mut b: usize = 0;
        while b < self.batches.len()
            invariant
                b <= self.batches@.len(),
                batches == self@.batches,
                seen_of(list@) == batches_seen(batches, b as nat),
                all_fit(batches) ==> forall|k: int|
                    0 <= k < list@.len() ==> (#[trigger] list@[k]).well_formed(),
            decreases self.batches@.len() - b,
        {
            let batch = &self.batches[b];
            let ghost before = seen_of(list@);
            let ghost these = batch_seen(batch@);
            assert(batches[b as int] == batch@);
            let mut r: usize = 0;
            assert(before + these.take(0) =~= before);
            while r < batch.records.len()
                invariant
                    r <= batch.records@.len(),
                    these == batch_seen(batch@),
                    all_fit(batches) ==> batch@.well_formed(),
                    all_fit(batches) ==> forall|k: int|
                        0 <= k < list@.len() ==> (#[trigger] list@[k]).well_formed(),
                    seen_of(list@) == before + these.take(r as int),
                decreases batch.records@.len() - r,
            {
                let ghost earlier = list@;
                assert(batch@.records[r as int] == batch.records@[r as int]);
                let record = RecordRef::Lean { batch, record: &batch.records[r] };
                list.push(record);
                assert(seen_of(list@) =~= seen_of(earlier).push(these[r as int]));
                assert(before + these.take(r + 1) =~= (before + these.take(r as int)).push(
                    these[r as int],
                ));
                r = r + 1;
            }
            assert(these.take(these.len() as int) =~= these);
            b = b + 1;
        }
        let ghost lean = seen_of(list@);
        let ghost rest = self@.fallback.map_values(|r: consumer::FullRecord| full_seen(r));
        let mut f: usize = 0;
        assert(lean + rest.take(0) =~= lean);
        while f < self.fallback.len()
            invariant
                f <= self.fallback@.len(),
                rest == self@.fallback.map_values(|r: consumer::FullRecord| full_seen(r)),
                all_fit(batches) ==> forall|k: int|
                    0 <= k < list@.len() ==> (#[trigger] list@[k]).well_formed(),
                seen_of(list@) == lean + rest.take(f as int),
            decreases self.fallback@.len() - f,
        {
            let ghost earlier = list@;
            list.push(RecordRef::Full(&self.fallback[f]));
            assert(seen_of(list@) =~= seen_of(earlier).push(rest[f as int]));
            assert(lean + rest.take(f + 1) =~= (lean + rest.take(f as int)).push(rest[f as int]));
            f = f + 1;
        }
        assert(rest.take(rest.len() as int) =~= rest);
        list
    }

    /// How many records this partition yielded.
    pub fn len(&self) -> (n: usize)
        requires
            records_in(self@.batches, self@.batches.len()) + self@.fallback.len() <= usize::MAX,
        ensures
            n == records_in(self@.batches, self@.batches.len()) + self@.fallback.len(),
    {
        let ghost batches = self@.batches;
        let mut n: usize = 0;
        let mut b: usize = 0;
        while b < self.batches.len()
            invariant
                b <= self.batches@.len(),
                batches == self@.batches,
                n == records_in(batches, b as nat),
                records_in(batches, batches.len()) <= usize::MAX,
            decreases self.batches@.len() - b,
        {
            assert(batches[b as int] == self.batches@[b as int]@);
            proof {
                lemma_records_grow(batches, (b + 1) as nat, batches.len());
            }
            n = n + self.batches[b].records.len();
            b = b + 1;
        }
        n + self.fallback.len()
    }

    /// Whether this partition yielded nothing.
    pub fn is_empty(&self) -> (yes: bool)
        ensures
            yes == (records_in(self@.batches, self@.batches.len()) + self@.fallback.len() == 0),
    {
        let ghost batches = self@.batches;
        if self.fallback.len() > 0 {
            return false;
        }
        let mut b: usize = 0;
        while b < self.batches.len()
            invariant
                b <= self.batches@.len(),
                batches == self@.batches,
                records_in(batches, b as nat) == 0,
            decreases self.batches@.len() - b,
        {
            assert(batches[b as int] == self.batches@[b as int]@);
            if self.batches[b].records.len() > 0 {
                proof {
                    lemma_records_grow(batches, (b + 1) as nat, batches.len());
                }
                return false;
            }
            b = b + 1;
        }
        true
    }
}

proof fn lemma_records_grow(batches: Seq<records::Batch>, n: nat, m: nat)
    requires
        n <= m,
    ensures
        records_in(batches, n) <= records_in(batches, m),
    decreases m,
{
    if n < m {
        lemma_records_grow(batches, n, (m - 1) as nat);
    }
}

/// Every record that a partition yielded is seen once, batch by batch and in its order,
/// those that were read the general way behind them.
pub proof fn law_every_record_is_seen(got: fetching::Yield)
    ensures
        all_seen(got) == got.batches.map_values(
            |b: records::Batch| b.records.map_values(|r: LeanRecord| lean_seen(b, r)),
        ).flatten() + got.fallback.map_values(|r: consumer::FullRecord| full_seen(r)),
        all_seen(got).len() == records_in(got.batches, got.batches.len()) + got.fallback.len(),
{
    lemma_batches_seen(got.batches, got.batches.len());
    assert(got.batches.take(got.batches.len() as int) =~= got.batches);
}

proof fn lemma_batches_seen(batches: Seq<records::Batch>, n: nat)
    requires
        n <= batches.len(),
    ensures
        batches_seen(batches, n) == batches.take(n as int).map_values(
            |b: records::Batch| b.records.map_values(|r: LeanRecord| lean_seen(b, r)),
        ).flatten(),
        batches_seen(batches, n).len() == records_in(batches, n),
    decreases n,
{
    let seen = |b: records::Batch| b.records.map_values(|r: LeanRecord| lean_seen(b, r));
    let now = batches.take(n as int).map_values(seen);
    if n > 0 {
        lemma_batches_seen(batches, (n - 1) as nat);
        let earlier = batches.take(n - 1).map_values(seen);
        assert(now =~= earlier.push(seen(batches[n - 1])));
        earlier.lemma_flatten_push(seen(batches[n - 1]));
        assert(batch_seen(batches[n - 1]) =~= seen(batches[n - 1]));
    } else {
        assert(now.flatten() =~= Seq::empty());
    }
}

/// What a record holds does not depend on which reader read it: offset and timestamp, and
/// key and value each from its own place.
pub proof fn law_a_record_holds_its_own_parts(
    batch: records::Batch,
    lean: LeanRecord,
    full: consumer::FullRecord,
)
    requires
        lean.offset == full.offset,
        lean.timestamp == full.timestamp,
        records::range_of(batch.body, lean.key) == full.key,
        records::range_of(batch.body, lean.value) == full.value,
        records::headers_of(batch.body, lean) == Ok::<Seq<(Seq<u8>, Option<Seq<u8>>)>, Flaw>(
            full_headers(full.headers),
        ),
    ensures
        lean_seen(batch, lean) == full_seen(full),
        full_seen(full).key == full.key,
        full_seen(full).value == full.value,
        full_seen(full).offset == full.offset,
        full_seen(full).timestamp == full.timestamp,
        full_headers(full.headers).len() == full.headers.len(),
        forall|i: int|
            0 <= i < full.headers.len() ==> #[trigger] full_headers(full.headers)[i] == (
                names::utf8(full.headers[i].0),
                full.headers[i].1,
            ),
{
}

} // verus!
