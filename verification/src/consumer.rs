//! Fetch positions and read-committed filtering.
//!
//! Asking a broker for committed data does not make it withhold aborted records: it
//! returns them, together with the aborted transactions and the last stable offset,
//! and the consumer filters. [`filter`] is that filter.
use crate::buffer;
use crate::records;
use crate::wire;
use bytes::Bytes;
use std::collections::HashSet;
use vstd::prelude::*;

verus! {

/// Whether aborted records are visible.
#[derive(Debug, Clone, Copy, PartialEq, Eq, Structural)]
pub enum IsolationLevel {
    /// Everything the broker has, aborted transactions too.
    ReadUncommitted,
    /// Only committed data, and only below the last stable offset.
    ReadCommitted,
}

/// The value that stands for an isolation level in a fetch request.
pub open spec fn isolation_number(isolation: IsolationLevel) -> i8 {
    match isolation {
        IsolationLevel::ReadUncommitted => 0i8,
        IsolationLevel::ReadCommitted => 1i8,
    }
}

impl IsolationLevel {
    /// The value that stands for it in a fetch request.
    pub fn as_i8(self) -> (value: i8)
        ensures
            value == isolation_number(self),
    {
        match self {
            IsolationLevel::ReadUncommitted => 0,
            IsolationLevel::ReadCommitted => 1,
        }
    }
}

/// An aborted transaction, as a fetch response reports it.
#[derive(Debug, Clone, Copy, PartialEq, Eq, Structural)]
pub struct AbortedTransaction {
    pub producer_id: i64,
    pub first_offset: i64,
}

/// Where a consumer is in one partition.
#[derive(Debug, PartialEq, Eq)]
pub struct FetchPosition {
    pub topic: String,
    pub partition: i32,
    /// The offset the next fetch asks for.
    pub next_offset: i64,
}

impl FetchPosition {
    pub fn new(topic: &str, partition: i32, next_offset: i64) -> (position: Self)
        ensures
            position.topic@ == topic@,
            position.partition == partition,
            position.next_offset == next_offset,
    {
        FetchPosition { topic: topic.to_owned(), partition, next_offset }
    }
}

/// Who set a record's timestamp.
#[derive(Debug, Clone, Copy, PartialEq, Eq, Structural)]
pub enum TimestampType {
    Creation,
    LogAppend,
}

/// One record in full, with its batch's facts copied into it.
#[derive(Debug)]
pub struct Record {
    pub transactional: bool,
    pub control: bool,
    pub partition_leader_epoch: i32,
    pub producer_id: i64,
    pub producer_epoch: i16,
    pub timestamp_type: TimestampType,
    pub offset: i64,
    pub sequence: i32,
    pub timestamp: i64,
    pub key: Option<Bytes>,
    pub value: Option<Bytes>,
    pub headers: Vec<(String, Option<Bytes>)>,
}

/// What a [`Record`] stands for.
pub ghost struct FullRecord {
    pub transactional: bool,
    pub control: bool,
    pub partition_leader_epoch: i32,
    pub producer_id: i64,
    pub producer_epoch: i16,
    pub timestamp_type: TimestampType,
    pub offset: i64,
    pub sequence: i32,
    pub timestamp: i64,
    pub key: Option<Seq<u8>>,
    pub value: Option<Seq<u8>>,
    pub headers: Seq<(Seq<char>, Option<Seq<u8>>)>,
}

impl View for Record {
    type V = FullRecord;

    open spec fn view(&self) -> FullRecord {
        FullRecord {
            transactional: self.transactional,
            control: self.control,
            partition_leader_epoch: self.partition_leader_epoch,
            producer_id: self.producer_id,
            producer_epoch: self.producer_epoch,
            timestamp_type: self.timestamp_type,
            offset: self.offset,
            sequence: self.sequence,
            timestamp: self.timestamp,
            key: records::optional_contents(self.key),
            value: records::optional_contents(self.value),
            headers: Seq::new(
                self.headers@.len(),
                |i: int|
                    (self.headers@[i].0@, records::optional_contents(self.headers@[i].1)),
            ),
        }
    }
}

/// What a list of records stands for.
pub open spec fn full_records(records: Seq<Record>) -> Seq<FullRecord> {
    Seq::new(records.len(), |i: int| records[i]@)
}

/// What a fetch yielded, after filtering.
#[derive(Debug)]
pub struct Fetched {
    /// Records the caller may have.
    pub records: Vec<Record>,
    /// Where the next fetch starts. **It advances past filtered records too**: a
    /// fetch whose every record was aborted still makes progress.
    pub next_offset: i64,
}

/// The control-record type of an abort marker.
pub const CONTROL_ABORT: i16 = 0;

/// The type that a control record's key holds: two bytes of version, then two of
/// type.
pub fn control_type(record: &Record) -> (kind: Option<i16>)
    ensures
        kind == records::marker_type(records::optional_contents(record.key)),
{
    match &record.key {
        None => None,
        Some(key) => {
            let bytes = buffer::as_slice(key);
            if bytes.len() < 4 {
                None
            } else {
                wire::i16_at(bytes, 2)
            }
        },
    }
}

/// What the filter sees of a record, or of a batch: where it begins, whose it is,
/// and whether it is an abort marker.
pub ghost struct Step {
    pub offset: i64,
    pub producer: i64,
    pub abort: bool,
}

/// Whether the step at `j` is the first at or past `first_offset`.
pub open spec fn begins(steps: Seq<Step>, first_offset: i64, j: int) -> bool {
    &&& 0 <= j < steps.len()
    &&& steps[j].offset >= first_offset
    &&& forall|k: int| 0 <= k < j ==> (#[trigger] steps[k]).offset < first_offset
}

/// Whether no abort marker of `producer` stands in `from..to`.
pub open spec fn unclosed(steps: Seq<Step>, producer: i64, from: int, to: int) -> bool {
    forall|k: int|
        from <= k < to ==> !((#[trigger] steps[k]).abort && steps[k].producer == producer)
}

/// Whether the aborted transaction `a` covers the steps from its first offset up to
/// `i`: it began at or before `i`, and no marker of its producer has closed it before
/// `i`.
pub open spec fn covers(steps: Seq<Step>, a: AbortedTransaction, i: int, j: int) -> bool {
    &&& j <= i
    &&& begins(steps, a.first_offset, j)
    &&& unclosed(steps, a.producer_id, j, i)
}

/// Whether `producer` is inside an aborted transaction at step `i`.
pub open spec fn aborted_at(
    steps: Seq<Step>,
    aborted: Seq<AbortedTransaction>,
    producer: i64,
    i: int,
) -> bool {
    exists|n: int, j: int|
        0 <= n < aborted.len() && (#[trigger] aborted[n]).producer_id == producer
            && #[trigger] covers(steps, aborted[n], i, j)
}

/// Whether one of the first `n` steps is at or past `first_offset`.
spec fn reached(steps: Seq<Step>, first_offset: i64, n: int) -> bool {
    exists|k: int| 0 <= k < n && (#[trigger] steps[k]).offset >= first_offset
}

/// The producers whose transaction is open and aborted, while steps go by.
pub struct AbortTracker {
    pending: Vec<AbortedTransaction>,
    next: usize,
    open: HashSet<i64>,
    steps: Ghost<Seq<Step>>,
    aborted: Ghost<Seq<AbortedTransaction>>,
}

/// Whether two lists hold the same transactions.
pub open spec fn same_transactions(
    a: Seq<AbortedTransaction>,
    b: Seq<AbortedTransaction>,
) -> bool {
    forall|t: AbortedTransaction| #[trigger] a.contains(t) <==> b.contains(t)
}

/// Whether transactions stand in the order of their first offsets.
pub open spec fn by_first_offset(list: Seq<AbortedTransaction>) -> bool {
    forall|i: int, j: int|
        0 <= i <= j < list.len() ==> (#[trigger] list[i]).first_offset <= (
        #[trigger] list[j]).first_offset
}

/// The same transactions in the order of their first offsets.
fn sorted(aborted: &[AbortedTransaction]) -> (out: Vec<AbortedTransaction>)
    ensures
        by_first_offset(out@),
        same_transactions(out@, aborted@),
{
    let mut out: Vec<AbortedTransaction> = Vec::new();
    let mut i: usize = 0;
    assert(same_transactions(out@, aborted@.take(0)));
    while i < aborted.len()
        invariant
            i <= aborted@.len(),
            by_first_offset(out@),
            same_transactions(out@, aborted@.take(i as int)),
        decreases aborted@.len() - i,
    {
        let item = aborted[i];
        let mut at: usize = out.len();
        while at > 0 && out[at - 1].first_offset > item.first_offset
            invariant
                at <= out@.len(),
                by_first_offset(out@),
                forall|k: int| at <= k < out@.len() ==> (#[trigger] out@[k]).first_offset
                    > item.first_offset,
            decreases at,
        {
            at = at - 1;
        }
        let ghost before = out@;
        out.insert(at, item);
        proof {
            let prefix = aborted@.take(i as int);
            let longer = aborted@.take(i + 1);
            assert(longer =~= prefix.push(item));
            assert forall|t: AbortedTransaction| #[trigger] out@.contains(t) <==> longer.contains(
                t,
            ) by {
                if out@.contains(t) {
                    let k = choose|k: int| 0 <= k < out@.len() && out@[k] == t;
                    if k < at {
                        assert(before[k] == t);
                        assert(before.contains(t));
                    } else if k > at {
                        assert(before[k - 1] == t);
                        assert(before.contains(t));
                    }
                    if before.contains(t) {
                        assert(prefix.contains(t));
                        let m = choose|m: int| 0 <= m < prefix.len() && prefix[m] == t;
                        assert(longer[m] == t);
                    } else {
                        assert(longer[i as int] == t);
                    }
                }
                if longer.contains(t) {
                    let m = choose|m: int| 0 <= m < longer.len() && longer[m] == t;
                    if m < i {
                        assert(prefix[m] == t);
                        assert(before.contains(t));
                        let k = choose|k: int| 0 <= k < before.len() && before[k] == t;
                        assert(out@[if k < at {
                            k
                        } else {
                            k + 1
                        }] == t);
                    } else {
                        assert(out@[at as int] == t);
                    }
                }
            }
        }
        i = i + 1;
    }
    assert(aborted@.take(aborted@.len() as int) =~= aborted@);
    out
}

/// Whether `producer` is still inside an aborted transaction behind the first `n`
/// steps.
spec fn open_behind(
    steps: Seq<Step>,
    aborted: Seq<AbortedTransaction>,
    producer: i64,
    n: int,
) -> bool {
    exists|m: int, j: int|
        0 <= m < aborted.len() && (#[trigger] aborted[m]).producer_id == producer && j < n
            && #[trigger] covers(steps, aborted[m], n, j)
}

impl AbortTracker {
    /// The steps that have gone by.
    pub closed spec fn steps(&self) -> Seq<Step> {
        self.steps@
    }

    /// The aborted transactions that it goes by.
    pub closed spec fn aborted(&self) -> Seq<AbortedTransaction> {
        self.aborted@
    }

    pub closed spec fn well_formed(&self) -> bool {
        let steps = self.steps@;
        &&& self.next <= self.pending@.len()
        &&& by_first_offset(self.pending@)
        &&& same_transactions(self.pending@, self.aborted@)
        &&& forall|e: int, k: int|
            #![trigger self.pending@[e], steps[k]]
            self.next <= e < self.pending@.len() && 0 <= k < steps.len() ==> steps[k].offset
                < self.pending@[e].first_offset
        &&& forall|e: int|
            0 <= e < self.next ==> reached(
                steps,
                (#[trigger] self.pending@[e]).first_offset,
                steps.len() as int,
            )
        &&& forall|p: i64| #[trigger]
            self.open@.contains(p) <==> open_behind(
                steps,
                self.aborted@,
                p,
                steps.len() as int,
            )
    }

    /// Starts with no steps behind it. The list may stand in any order.
    pub fn new(aborted: &[AbortedTransaction]) -> (tracker: Self)
        ensures
            tracker.well_formed(),
            tracker.steps() == Seq::<Step>::empty(),
            tracker.aborted() == aborted@,
    {
        broadcast use vstd::std_specs::hash::group_hash_axioms;

        AbortTracker {
            pending: sorted(aborted),
            next: 0,
            open: HashSet::new(),
            steps: Ghost(Seq::empty()),
            aborted: Ghost(aborted@),
        }
    }

    /// Takes the next step: says whether its producer is inside an aborted
    /// transaction there, and closes that transaction if the step is an abort marker.
    pub fn step(&mut self, offset: i64, producer: i64, abort: bool) -> (inside: bool)
        requires
            old(self).well_formed(),
        ensures
            final(self).well_formed(),
            final(self).aborted() == old(self).aborted(),
            final(self).steps() == old(self).steps().push(
                (Step { offset, producer, abort }),
            ),
            inside == aborted_at(
                final(self).steps(),
                final(self).aborted(),
                producer,
                old(self).steps().len() as int,
            ),
    {
        broadcast use vstd::std_specs::hash::group_hash_axioms;

        let ghost before = self.steps@;
        let ghost n = before.len() as int;
        let ghost steps = before.push(Step { offset, producer, abort });
        let ghost aborted = self.aborted@;
        let ghost first_next = self.next as int;
        proof {
            assert forall|p: i64| #[trigger] self.open@.contains(p) <==> open_behind(
                steps,
                aborted,
                p,
                n,
            ) by {
                lemma_same_prefix(before, steps, aborted, p, n);
            }
            assert forall|e: int| 0 <= e < self.next implies reached(
                steps,
                (#[trigger] self.pending@[e]).first_offset,
                n,
            ) by {
                let k = choose|k: int|
                    0 <= k < n && (#[trigger] before[k]).offset >= self.pending@[e].first_offset;
                assert(steps[k] == before[k]);
            }
        }
        while self.next < self.pending.len() && self.pending[self.next].first_offset <= offset
            invariant
                steps == before.push((Step { offset, producer, abort })),
                n == before.len(),
                self.aborted@ == aborted,
                self.steps@ == before,
                first_next <= self.next <= self.pending@.len(),
                by_first_offset(self.pending@),
                same_transactions(self.pending@, aborted),
                forall|e: int, k: int|
                    #![trigger self.pending@[e], before[k]]
                    first_next <= e < self.pending@.len() && 0 <= k < n ==> before[k].offset
                        < self.pending@[e].first_offset,
                forall|e: int|
                    0 <= e < first_next ==> reached(
                        steps,
                        (#[trigger] self.pending@[e]).first_offset,
                        n,
                    ),
                forall|e: int|
                    first_next <= e < self.next ==> begins(
                        steps,
                        (#[trigger] self.pending@[e]).first_offset,
                        n,
                    ),
                forall|p: i64| #[trigger]
                    self.open@.contains(p) <==> {
                        ||| open_behind(steps, aborted, p, n)
                        ||| exists|e: int|
                            first_next <= e < self.next && (
                            #[trigger] self.pending@[e]).producer_id == p
                    },
            decreases self.pending@.len() - self.next,
        {
            broadcast use vstd::std_specs::hash::group_hash_axioms;

            let a = self.pending[self.next];
            let ghost was = self.open@;
            self.open.insert(a.producer_id);
            self.next = self.next + 1;
            proof {
                let e0 = self.next - 1;
                assert(begins(steps, self.pending@[e0].first_offset, n)) by {
                    assert forall|k: int| 0 <= k < n implies (#[trigger] steps[k]).offset
                        < self.pending@[e0].first_offset by {
                        assert(steps[k] == before[k]);
                    }
                }
                assert forall|p: i64| #[trigger] self.open@.contains(p) <==> {
                    ||| open_behind(steps, aborted, p, n)
                    ||| exists|e: int|
                        first_next <= e < self.next && (#[trigger] self.pending@[e]).producer_id
                            == p
                } by {
                    if p == a.producer_id {
                        assert(self.pending@[e0].producer_id == p);
                    } else {
                        assert(was.contains(p) == self.open@.contains(p));
                    }
                }
            }
        }
        proof {
            self.steps@ = steps;
            assert forall|e: int| 0 <= e < self.next implies reached(
                steps,
                (#[trigger] self.pending@[e]).first_offset,
                n + 1,
            ) by {
                if e < first_next {
                    let k = choose|k: int|
                        0 <= k < n && (#[trigger] steps[k]).offset >= self.pending@[e].first_offset;
                    assert(steps[k].offset >= self.pending@[e].first_offset);
                } else {
                    assert(steps[n].offset >= self.pending@[e].first_offset);
                }
            }
            assert forall|p: i64| #[trigger] self.open@.contains(p) <==> aborted_at(
                steps,
                aborted,
                p,
                n,
            ) by {
                lemma_now_open(
                    steps,
                    self.pending@,
                    aborted,
                    first_next,
                    self.next as int,
                    p,
                    n,
                    self.open@.contains(p),
                );
            }
            assert forall|e: int, k: int|
                #![trigger self.pending@[e], steps[k]]
                self.next <= e < self.pending@.len() && 0 <= k < steps.len() implies steps[k].offset
                < self.pending@[e].first_offset by {
                if k < n {
                    assert(steps[k] == before[k]);
                } else {
                    assert(self.pending@[self.next as int].first_offset
                        <= self.pending@[e].first_offset);
                }
            }
        }
        let inside = self.open.contains(&producer);
        if abort {
            self.open.remove(&producer);
        }
        proof {
            assert forall|p: i64| #[trigger] self.open@.contains(p) <==> open_behind(
                steps,
                aborted,
                p,
                n + 1,
            ) by {
                lemma_left_open(steps, aborted, p, n);
            }
        }
        inside
    }
}

/// A longer history says the same of its beginning.
proof fn lemma_same_prefix(
    before: Seq<Step>,
    steps: Seq<Step>,
    aborted: Seq<AbortedTransaction>,
    p: i64,
    n: int,
)
    requires
        n == before.len(),
        steps.len() == n + 1,
        forall|k: int| 0 <= k < n ==> steps[k] == before[k],
    ensures
        open_behind(before, aborted, p, n) == open_behind(steps, aborted, p, n),
{
    assert forall|a: AbortedTransaction, j: int| j < n implies #[trigger] covers(before, a, n, j)
        == covers(steps, a, n, j) by {
        if covers(before, a, n, j) {
            assert(steps[j] == before[j]);
            assert forall|k: int| 0 <= k < j implies (#[trigger] steps[k]).offset
                < a.first_offset by {
                assert(steps[k] == before[k]);
            }
            assert forall|k: int| j <= k < n implies !((#[trigger] steps[k]).abort
                && steps[k].producer == a.producer_id) by {
                assert(steps[k] == before[k]);
            }
        }
        if covers(steps, a, n, j) {
            assert(steps[j] == before[j]);
            assert forall|k: int| 0 <= k < j implies (#[trigger] before[k]).offset
                < a.first_offset by {
                assert(steps[k] == before[k]);
            }
            assert forall|k: int| j <= k < n implies !((#[trigger] before[k]).abort
                && before[k].producer == a.producer_id) by {
                assert(steps[k] == before[k]);
            }
        }
    }
    if open_behind(before, aborted, p, n) {
        let (m, j) = choose|m: int, j: int|
            0 <= m < aborted.len() && (#[trigger] aborted[m]).producer_id == p && j < n
                && #[trigger] covers(before, aborted[m], n, j);
        assert(covers(steps, aborted[m], n, j));
    }
    if open_behind(steps, aborted, p, n) {
        let (m, j) = choose|m: int, j: int|
            0 <= m < aborted.len() && (#[trigger] aborted[m]).producer_id == p && j < n
                && #[trigger] covers(steps, aborted[m], n, j);
        assert(covers(before, aborted[m], n, j));
    }
}

/// At step `n` the open transactions are those still open behind the steps before
/// it, and those that begin there.
proof fn lemma_now_open(
    steps: Seq<Step>,
    pending: Seq<AbortedTransaction>,
    aborted: Seq<AbortedTransaction>,
    first_next: int,
    next: int,
    p: i64,
    n: int,
    open: bool,
)
    requires
        n + 1 == steps.len(),
        0 <= first_next <= next <= pending.len(),
        by_first_offset(pending),
        same_transactions(pending, aborted),
        next < pending.len() ==> steps[n].offset < pending[next].first_offset,
        forall|e: int|
            first_next <= e < next ==> begins(
                steps,
                (#[trigger] pending[e]).first_offset,
                n,
            ),
        forall|e: int|
            0 <= e < first_next ==> reached(steps, (#[trigger] pending[e]).first_offset, n),
        open <==> {
            ||| open_behind(steps, aborted, p, n)
            ||| exists|e: int|
                first_next <= e < next && (#[trigger] pending[e]).producer_id == p
        },
    ensures
        open == aborted_at(steps, aborted, p, n),
{
    if open {
        if open_behind(steps, aborted, p, n) {
            let (m, j) = choose|m: int, j: int|
                0 <= m < aborted.len() && (#[trigger] aborted[m]).producer_id == p && j < n
                    && #[trigger] covers(steps, aborted[m], n, j);
            assert(covers(steps, aborted[m], n, j));
        } else {
            let e = choose|e: int|
                first_next <= e < next && (#[trigger] pending[e]).producer_id == p;
            assert(pending.contains(pending[e]));
            assert(aborted.contains(pending[e]));
            let m = choose|m: int| 0 <= m < aborted.len() && aborted[m] == pending[e];
            assert(covers(steps, aborted[m], n, n));
        }
    }
    if aborted_at(steps, aborted, p, n) {
        let (m, j) = choose|m: int, j: int|
            0 <= m < aborted.len() && (#[trigger] aborted[m]).producer_id == p
                && #[trigger] covers(steps, aborted[m], n, j);
        if j < n {
            assert(open_behind(steps, aborted, p, n));
        } else {
            assert(aborted.contains(aborted[m]));
            assert(pending.contains(aborted[m]));
            let e = choose|e: int| 0 <= e < pending.len() && pending[e] == aborted[m];
            if e < first_next {
                let k = choose|k: int|
                    0 <= k < n && (#[trigger] steps[k]).offset >= pending[e].first_offset;
                assert(steps[k].offset < pending[e].first_offset);
            } else if e >= next {
                assert(pending[next].first_offset <= pending[e].first_offset);
            }
            assert(pending[e].producer_id == p);
        }
    }
}

/// A transaction stays open behind step `n` unless the step is its producer's abort
/// marker.
proof fn lemma_left_open(
    steps: Seq<Step>,
    aborted: Seq<AbortedTransaction>,
    p: i64,
    n: int,
)
    requires
        n + 1 == steps.len(),
    ensures
        open_behind(steps, aborted, p, n + 1) <==> aborted_at(steps, aborted, p, n) && !(
        steps[n].abort && steps[n].producer == p),
{
    if open_behind(steps, aborted, p, n + 1) {
        let (m, j) = choose|m: int, j: int|
            0 <= m < aborted.len() && (#[trigger] aborted[m]).producer_id == p && j < n + 1
                && #[trigger] covers(steps, aborted[m], n + 1, j);
        assert(covers(steps, aborted[m], n, j));
        assert(!(steps[n].abort && steps[n].producer == p));
    }
    if aborted_at(steps, aborted, p, n) && !(steps[n].abort && steps[n].producer == p) {
        let (m, j) = choose|m: int, j: int|
            0 <= m < aborted.len() && (#[trigger] aborted[m]).producer_id == p
                && #[trigger] covers(steps, aborted[m], n, j);
        assert(covers(steps, aborted[m], n + 1, j));
    }
}

/// What the filter sees of each record.
pub open spec fn record_steps(records: Seq<FullRecord>) -> Seq<Step> {
    records.map_values(
        |r: FullRecord|
            Step {
                offset: r.offset,
                producer: r.producer_id,
                abort: r.control && records::marker_type(r.key) == Some(
                    CONTROL_ABORT,
                ),
            },
    )
}

/// How many steps lie before the first one, from `i` on, that must be withheld:
/// everything at or past the last stable offset, for a reader of committed data.
pub open spec fn stable_len(
    steps: Seq<Step>,
    isolation: IsolationLevel,
    last_stable_offset: i64,
    i: nat,
) -> nat
    decreases steps.len() - i,
{
    if i >= steps.len() || (isolation == IsolationLevel::ReadCommitted && steps[i as int].offset
        >= last_stable_offset) {
        i
    } else {
        stable_len(steps, isolation, last_stable_offset, i + 1)
    }
}

/// Whether the caller may have the record at `i`: it is no control record, not part
/// of an aborted transaction as far as the isolation level cares, and not before the
/// offset that was asked for.
pub open spec fn visible(
    records: Seq<FullRecord>,
    aborted: Seq<AbortedTransaction>,
    isolation: IsolationLevel,
    fetch_offset: i64,
    i: int,
) -> bool {
    &&& !records[i].control
    &&& !(isolation == IsolationLevel::ReadCommitted && records[i].transactional && aborted_at(
        record_steps(records),
        aborted,
        records[i].producer_id,
        i,
    ))
    &&& records[i].offset >= fetch_offset
}

/// The visible ones of the first `n` records, in their order.
pub open spec fn visible_among(
    records: Seq<FullRecord>,
    aborted: Seq<AbortedTransaction>,
    isolation: IsolationLevel,
    fetch_offset: i64,
    n: nat,
) -> Seq<FullRecord>
    decreases n,
{
    if n == 0 {
        Seq::empty()
    } else {
        let earlier = visible_among(records, aborted, isolation, fetch_offset, (n - 1) as nat);
        if visible(records, aborted, isolation, fetch_offset, n - 1) {
            earlier.push(records[n - 1])
        } else {
            earlier
        }
    }
}

/// Where the next fetch starts when the first `n` records have been taken in.
pub open spec fn position_after(records: Seq<FullRecord>, n: nat, fetch_offset: i64) -> i64 {
    if n == 0 {
        fetch_offset
    } else {
        records[n - 1].offset.wrapping_add(1)
    }
}

/// Whether nothing about a record has it dropped while no transaction is aborted.
pub open spec fn passes(
    r: FullRecord,
    isolation: IsolationLevel,
    last_stable_offset: i64,
    fetch_offset: i64,
) -> bool {
    !r.control && r.offset >= fetch_offset && !(isolation == IsolationLevel::ReadCommitted
        && r.offset >= last_stable_offset)
}

proof fn lemma_all_pass(
    records: Seq<FullRecord>,
    isolation: IsolationLevel,
    last_stable_offset: i64,
    fetch_offset: i64,
    n: nat,
)
    requires
        n <= records.len(),
        forall|i: int|
            0 <= i < records.len() ==> passes(
                #[trigger] records[i],
                isolation,
                last_stable_offset,
                fetch_offset,
            ),
    ensures
        visible_among(records, Seq::empty(), isolation, fetch_offset, n) == records.take(n as int),
        stable_len(
            record_steps(records),
            isolation,
            last_stable_offset,
            (records.len() - n) as nat,
        ) == records.len(),
    decreases n,
{
    if n > 0 {
        lemma_all_pass(records, isolation, last_stable_offset, fetch_offset, (n - 1) as nat);
        assert(passes(records[n - 1], isolation, last_stable_offset, fetch_offset));
        assert(records.take(n as int) =~= records.take(n - 1).push(records[n - 1]));
        let i = records.len() - n;
        assert(passes(records[i], isolation, last_stable_offset, fetch_offset));
        assert(record_steps(records)[i].offset == records[i].offset);
    } else {
        assert(records.take(0) =~= Seq::<FullRecord>::empty());
    }
}

/// Applies the read-committed rules to one partition's records, in offset order.
///
/// 1. Nothing at or past the last stable offset: above it, the outcome of a
///    transaction is not decided yet, and the position does not advance past it.
/// 2. Control records are never data, at either isolation level.
/// 3. Nothing below `fetch_offset`: the broker returns whole batches, so a fetch from
///    the middle of one comes back with the records before it too.
/// 4. Records of an aborted transaction are dropped, from its first offset to its
///    producer's abort marker and no further: one producer can follow an aborted
///    transaction with a committed one in a single response.
pub fn filter(
    records: Vec<Record>,
    aborted: &[AbortedTransaction],
    last_stable_offset: i64,
    isolation: IsolationLevel,
    fetch_offset: i64,
) -> (fetched: Fetched)
    ensures
        ({
            let all = full_records(records@);
            let n = stable_len(record_steps(all), isolation, last_stable_offset, 0);
            &&& full_records(fetched.records@) == visible_among(
                all,
                aborted@,
                isolation,
                fetch_offset,
                n,
            )
            &&& fetched.next_offset == position_after(all, n, fetch_offset)
        }),
{
    let ghost given = records@;
    let ghost all = full_records(given);
    let ghost steps = record_steps(all);
    let read_committed = isolation == IsolationLevel::ReadCommitted;
    // The common case is that nothing is dropped: a scan decides that without moving
    // a record, and hands the input straight back.
    if aborted.len() == 0 {
        let mut drops = false;
        let mut i: usize = 0;
        while i < records.len()
            invariant
                i <= records@.len(),
                records@ == given,
                all == full_records(given),
                read_committed == (isolation == IsolationLevel::ReadCommitted),
                !drops ==> forall|k: int|
                    0 <= k < i ==> passes(
                        #[trigger] all[k],
                        isolation,
                        last_stable_offset,
                        fetch_offset,
                    ),
            decreases records@.len() - i,
        {
            let r = &records[i];
            assert(all[i as int] == r@);
            if r.control || r.offset < fetch_offset || (read_committed && r.offset
                >= last_stable_offset) {
                drops = true;
            }
            i = i + 1;
        }
        if !drops {
            proof {
                lemma_all_pass(all, isolation, last_stable_offset, fetch_offset, all.len());
                assert(all.take(all.len() as int) =~= all);
                assert(aborted@ =~= Seq::empty());
            }
            let next_offset: i64 = if records.len() == 0 {
                fetch_offset
            } else {
                records[records.len() - 1].offset.wrapping_add(1)
            };
            return Fetched { records, next_offset };
        }
    }
    let mut kept: Vec<Record> = Vec::new();
    let mut next_offset: i64 = fetch_offset;
    let mut tracker = AbortTracker::new(aborted);
    let mut stopped = false;
    let ghost mut n: nat = 0;
    proof {
        assert(steps.take(0) =~= Seq::<Step>::empty());
        assert(full_records(kept@) =~= Seq::empty());
    }
    for record in it: records
        invariant
            it.seq() == given,
            all == full_records(given),
            steps == record_steps(all),
            tracker.well_formed(),
            tracker.aborted() == aborted@,
            read_committed == (isolation == IsolationLevel::ReadCommitted),
            n <= it.index(),
            !stopped ==> n == it.index(),
            !stopped ==> stable_len(steps, isolation, last_stable_offset, 0) == stable_len(
                steps,
                isolation,
                last_stable_offset,
                n,
            ),
            stopped ==> stable_len(steps, isolation, last_stable_offset, 0) == n,
            tracker.steps() == steps.take(n as int),
            full_records(kept@) == visible_among(all, aborted@, isolation, fetch_offset, n),
            next_offset == position_after(all, n, fetch_offset),
    {
        let ghost i = it.index() as int;
        assert(all[i] == record@);
        assert(steps[i].offset == record.offset);
        if !stopped && read_committed && record.offset >= last_stable_offset {
            stopped = true;
        }
        if !stopped {
            next_offset = record.offset.wrapping_add(1);
            let abort = record.control && match control_type(&record) {
                Some(kind) => kind == CONTROL_ABORT,
                None => false,
            };
            let inside = tracker.step(record.offset, record.producer_id, abort);
            proof {
                assert(tracker.steps() =~= steps.take(i + 1));
                lemma_prefix_decides(steps, aborted@, record.producer_id, i, i + 1);
                n = n + 1;
            }
            if !record.control && !(read_committed && record.transactional && inside)
                && record.offset >= fetch_offset {
                let ghost earlier = kept@;
                kept.push(record);
                assert(full_records(kept@) =~= full_records(earlier).push(record@));
            }
        }
    }
    Fetched { records: kept, next_offset }
}

/// Whether a producer is inside an aborted transaction at a step depends on no later
/// step.
pub proof fn lemma_prefix_decides(
    steps: Seq<Step>,
    aborted: Seq<AbortedTransaction>,
    producer: i64,
    i: int,
    n: int,
)
    requires
        0 <= i < n <= steps.len(),
    ensures
        aborted_at(steps.take(n), aborted, producer, i) == aborted_at(steps, aborted, producer, i),
{
    let prefix = steps.take(n);
    assert forall|a: AbortedTransaction, j: int| #[trigger] covers(prefix, a, i, j) == covers(
        steps,
        a,
        i,
        j,
    ) by {
        if covers(prefix, a, i, j) {
            assert forall|k: int| 0 <= k < j implies (#[trigger] steps[k]).offset
                < a.first_offset by {
                assert(prefix[k] == steps[k]);
            }
            assert forall|k: int| j <= k < i implies !((#[trigger] steps[k]).abort
                && steps[k].producer == a.producer_id) by {
                assert(prefix[k] == steps[k]);
            }
            assert(covers(steps, a, i, j));
        }
        if covers(steps, a, i, j) {
            assert(covers(prefix, a, i, j));
        }
    }
    if aborted_at(prefix, aborted, producer, i) {
        let (m, j) = choose|m: int, j: int|
            0 <= m < aborted.len() && (#[trigger] aborted[m]).producer_id == producer
                && #[trigger] covers(prefix, aborted[m], i, j);
        assert(covers(steps, aborted[m], i, j));
    }
    if aborted_at(steps, aborted, producer, i) {
        let (m, j) = choose|m: int, j: int|
            0 <= m < aborted.len() && (#[trigger] aborted[m]).producer_id == producer
                && #[trigger] covers(steps, aborted[m], i, j);
        assert(covers(prefix, aborted[m], i, j));
    }
}

/// A reader of committed data takes in exactly the steps before the first one at or
/// past the last stable offset; any other reader takes in all of them.
pub proof fn law_nothing_past_the_last_stable_offset(
    steps: Seq<Step>,
    isolation: IsolationLevel,
    last_stable_offset: i64,
)
    ensures
        ({
            let n = stable_len(steps, isolation, last_stable_offset, 0);
            &&& n <= steps.len()
            &&& isolation == IsolationLevel::ReadUncommitted ==> n == steps.len()
            &&& isolation == IsolationLevel::ReadCommitted ==> forall|i: int|
                0 <= i < n ==> (#[trigger] steps[i]).offset < last_stable_offset
            &&& n < steps.len() ==> steps[n as int].offset >= last_stable_offset
        }),
{
    lemma_stable_len(steps, isolation, last_stable_offset, 0);
}

proof fn lemma_stable_len(
    steps: Seq<Step>,
    isolation: IsolationLevel,
    last_stable_offset: i64,
    from: nat,
)
    requires
        from <= steps.len(),
    ensures
        ({
            let n = stable_len(steps, isolation, last_stable_offset, from);
            &&& from <= n <= steps.len()
            &&& isolation == IsolationLevel::ReadUncommitted ==> n == steps.len()
            &&& isolation == IsolationLevel::ReadCommitted ==> forall|i: int|
                from <= i < n ==> (#[trigger] steps[i]).offset < last_stable_offset
            &&& n < steps.len() ==> isolation == IsolationLevel::ReadCommitted
                && steps[n as int].offset >= last_stable_offset
        }),
    decreases steps.len() - from,
{
    if from < steps.len() && !(isolation == IsolationLevel::ReadCommitted && steps[from as int].offset
        >= last_stable_offset) {
        lemma_stable_len(steps, isolation, last_stable_offset, from + 1);
    }
}

/// What the caller gets is exactly the visible ones of the records taken in: nothing
/// else reaches it, and none of them is lost.
pub proof fn law_exactly_the_visible_records(
    records: Seq<FullRecord>,
    aborted: Seq<AbortedTransaction>,
    isolation: IsolationLevel,
    fetch_offset: i64,
    n: nat,
    r: FullRecord,
)
    requires
        n <= records.len(),
    ensures
        visible_among(records, aborted, isolation, fetch_offset, n).contains(r) <==> exists|i: int|
            0 <= i < n && #[trigger] records[i] == r && visible(
                records,
                aborted,
                isolation,
                fetch_offset,
                i,
            ),
    decreases n,
{
    let out = visible_among(records, aborted, isolation, fetch_offset, n);
    if n == 0 {
        assert(!out.contains(r));
    } else {
        let earlier = visible_among(records, aborted, isolation, fetch_offset, (n - 1) as nat);
        law_exactly_the_visible_records(
            records,
            aborted,
            isolation,
            fetch_offset,
            (n - 1) as nat,
            r,
        );
        if visible(records, aborted, isolation, fetch_offset, n - 1) {
            assert(out == earlier.push(records[n - 1]));
            assert(out[out.len() - 1] == records[n - 1]);
            if earlier.contains(r) {
                let k = choose|k: int| 0 <= k < earlier.len() && earlier[k] == r;
                assert(out[k] == r);
            }
            if out.contains(r) && !earlier.contains(r) {
                let k = choose|k: int| 0 <= k < out.len() && out[k] == r;
                if k < earlier.len() {
                    assert(earlier[k] == r);
                }
                assert(records[n - 1] == r);
            }
        }
    }
}

/// The list of aborted transactions may arrive in any order, and may repeat itself.
pub proof fn law_the_aborted_list_need_not_be_sorted(
    records: Seq<FullRecord>,
    one: Seq<AbortedTransaction>,
    other: Seq<AbortedTransaction>,
    isolation: IsolationLevel,
    fetch_offset: i64,
    n: nat,
)
    requires
        same_transactions(one, other),
        n <= records.len(),
    ensures
        visible_among(records, one, isolation, fetch_offset, n) == visible_among(
            records,
            other,
            isolation,
            fetch_offset,
            n,
        ),
    decreases n,
{
    if n > 0 {
        law_the_aborted_list_need_not_be_sorted(
            records,
            one,
            other,
            isolation,
            fetch_offset,
            (n - 1) as nat,
        );
        let steps = record_steps(records);
        let p = records[n - 1].producer_id;
        lemma_same_transactions(steps, one, other, p, n - 1);
        lemma_same_transactions(steps, other, one, p, n - 1);
    }
}

pub proof fn lemma_same_transactions(
    steps: Seq<Step>,
    one: Seq<AbortedTransaction>,
    other: Seq<AbortedTransaction>,
    producer: i64,
    i: int,
)
    requires
        same_transactions(one, other),
    ensures
        aborted_at(steps, one, producer, i) ==> aborted_at(steps, other, producer, i),
{
    if aborted_at(steps, one, producer, i) {
        let (m, j) = choose|m: int, j: int|
            0 <= m < one.len() && (#[trigger] one[m]).producer_id == producer
                && #[trigger] covers(steps, one[m], i, j);
        assert(one.contains(one[m]));
        assert(other.contains(one[m]));
        let k = choose|k: int| 0 <= k < other.len() && other[k] == one[m];
        assert(covers(steps, other[k], i, j));
    }
}

/// Behind an abort marker, its producer's records are judged anew: they are dropped
/// only if another of its aborted transactions begins behind the marker.
pub proof fn law_an_abort_marker_closes_the_range(
    steps: Seq<Step>,
    aborted: Seq<AbortedTransaction>,
    producer: i64,
    marker: int,
    i: int,
)
    requires
        0 <= marker < i < steps.len(),
        steps[marker].abort,
        steps[marker].producer == producer,
        forall|m: int, j: int|
            0 <= m < aborted.len() && (#[trigger] aborted[m]).producer_id == producer
                && #[trigger] begins(steps, aborted[m].first_offset, j) ==> j <= marker,
    ensures
        !aborted_at(steps, aborted, producer, i),
{
    if aborted_at(steps, aborted, producer, i) {
        let (m, j) = choose|m: int, j: int|
            0 <= m < aborted.len() && (#[trigger] aborted[m]).producer_id == producer
                && #[trigger] covers(steps, aborted[m], i, j);
        assert(begins(steps, aborted[m].first_offset, j));
        assert(!(steps[marker].abort && steps[marker].producer == aborted[m].producer_id));
    }
}

/// What stands for an isolation level on the wire: 0 for everything, 1 for committed data.
pub proof fn law_isolation_levels_have_their_numbers()
    ensures
        isolation_number(IsolationLevel::ReadUncommitted) == 0,
        isolation_number(IsolationLevel::ReadCommitted) == 1,
        CONTROL_ABORT == 0,
{
}

/// Whether steps stand in the order of their offsets.
pub open spec fn ascending(steps: Seq<Step>) -> bool {
    forall|a: int, b: int|
        0 <= a <= b < steps.len() ==> (#[trigger] steps[a]).offset <= (#[trigger] steps[b]).offset
}

/// An aborted transaction covers its producer's steps from its first offset on, that
/// offset included, up to its producer's abort marker, the marker included.
pub proof fn law_an_aborted_transaction_is_dropped(
    steps: Seq<Step>,
    aborted: Seq<AbortedTransaction>,
    m: int,
    i: int,
)
    requires
        ascending(steps),
        0 <= i < steps.len(),
        0 <= m < aborted.len(),
        steps[i].offset >= aborted[m].first_offset,
        forall|k: int|
            0 <= k < i && (#[trigger] steps[k]).offset >= aborted[m].first_offset ==> !(
            steps[k].abort && steps[k].producer == aborted[m].producer_id),
    ensures
        aborted_at(steps, aborted, aborted[m].producer_id, i),
{
    let first = aborted[m].first_offset;
    let j = lemma_first_at(steps, first, i);
    assert forall|k: int| j <= k < i implies !((#[trigger] steps[k]).abort && steps[k].producer
        == aborted[m].producer_id) by {
        assert(steps[j].offset <= steps[k].offset);
    }
    assert(covers(steps, aborted[m], i, j));
}

proof fn lemma_first_at(steps: Seq<Step>, first: i64, i: int) -> (j: int)
    requires
        0 <= i < steps.len(),
        steps[i].offset >= first,
    ensures
        j <= i,
        begins(steps, first, j),
    decreases i,
{
    if exists|k: int| 0 <= k < i && (#[trigger] steps[k]).offset >= first {
        let k = choose|k: int| 0 <= k < i && (#[trigger] steps[k]).offset >= first;
        lemma_first_at(steps, first, k)
    } else {
        i
    }
}

/// Nothing else is covered: not the steps of a producer that has no aborted transaction,
/// and not those before the first offset of every one that it has.
pub proof fn law_nothing_else_is_dropped(
    steps: Seq<Step>,
    aborted: Seq<AbortedTransaction>,
    producer: i64,
    i: int,
)
    requires
        0 <= i < steps.len(),
        forall|m: int, k: int|
            0 <= m < aborted.len() && 0 <= k <= i && (#[trigger] aborted[m]).producer_id == producer
                ==> (#[trigger] steps[k]).offset < aborted[m].first_offset,
    ensures
        !aborted_at(steps, aborted, producer, i),
{
    if aborted_at(steps, aborted, producer, i) {
        let (m, j) = choose|m: int, j: int|
            0 <= m < aborted.len() && (#[trigger] aborted[m]).producer_id == producer
                && #[trigger] covers(steps, aborted[m], i, j);
        assert(steps[j].offset >= aborted[m].first_offset);
    }
}

/// Where nothing was aborted, or where the reader takes everything, what is left of the
/// first `n` records are exactly those that are no markers and lie at the offset that was
/// asked for or past it, in their order.
pub proof fn law_without_aborts_only_markers_are_dropped(
    records: Seq<FullRecord>,
    aborted: Seq<AbortedTransaction>,
    isolation: IsolationLevel,
    fetch_offset: i64,
    n: nat,
)
    requires
        n <= records.len(),
        isolation == IsolationLevel::ReadUncommitted || aborted.len() == 0,
    ensures
        visible_among(records, aborted, isolation, fetch_offset, n) == records.take(
            n as int,
        ).filter(|r: FullRecord| !r.control && r.offset >= fetch_offset),
    decreases n,
{
    reveal(Seq::filter);
    let plain = |r: FullRecord| !r.control && r.offset >= fetch_offset;
    if n > 0 {
        law_without_aborts_only_markers_are_dropped(
            records,
            aborted,
            isolation,
            fetch_offset,
            (n - 1) as nat,
        );
        assert(records.take(n as int).drop_last() =~= records.take(n - 1));
        assert(records.take(n as int).last() == records[n - 1]);
    } else {
        assert(visible_among(records, aborted, isolation, fetch_offset, n) =~= records.take(
            0,
        ).filter(plain));
    }
}

/// A reader of committed data is handed no marker, no record of an aborted transaction,
/// and nothing before the offset that it asked for; and it gets everything else that was
/// taken in. The position is past the last record taken in, whether it was handed out or
/// not, and stays where nothing was.
pub proof fn law_committed_data_is_what_is_left(
    records: Seq<FullRecord>,
    aborted: Seq<AbortedTransaction>,
    fetch_offset: i64,
    n: nat,
    i: int,
)
    requires
        0 <= i < n <= records.len(),
    ensures
        ({
            let got = visible_among(
                records,
                aborted,
                IsolationLevel::ReadCommitted,
                fetch_offset,
                n,
            );
            let dropped = records[i].control || records[i].offset < fetch_offset || (
            records[i].transactional && aborted_at(
                record_steps(records),
                aborted,
                records[i].producer_id,
                i,
            ));
            &&& !dropped ==> got.contains(records[i])
            &&& position_after(records, n, fetch_offset) == records[n - 1].offset.wrapping_add(1)
            &&& position_after(records, 0, fetch_offset) == fetch_offset
        }),
{
    law_exactly_the_visible_records(
        records,
        aborted,
        IsolationLevel::ReadCommitted,
        fetch_offset,
        n,
        records[i],
    );
    assert(records[i] == records[i]);
}

/// What the filter sees of a record: where it lies, whose it is, and whether it is an abort
/// marker, which is a control record whose key says type 0 behind two bytes of version.
pub proof fn law_an_abort_marker_is_a_control_record(records: Seq<FullRecord>, i: int)
    requires
        0 <= i < records.len(),
    ensures
        record_steps(records).len() == records.len(),
        record_steps(records)[i].offset == records[i].offset,
        record_steps(records)[i].producer == records[i].producer_id,
        record_steps(records)[i].abort <==> records[i].control && (records[i].key matches Some(key)
            && key.len() >= 4 && wire::i16_of(key, 2) == 0),
{
}

} // verus!
