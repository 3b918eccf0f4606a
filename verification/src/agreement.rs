//! The two ways of filtering what a fetch brought agree.
//!
//! Records are filtered one by one, or batch by batch. Where the same records arrive
//! either way, the caller gets the same of them, and the next fetch starts at the same
//! offset.
use crate::consumer;
use crate::consumer::{AbortedTransaction, IsolationLevel};
use crate::record_ref;
use crate::records;
use crate::records::LeanRecord;
use vstd::prelude::*;

verus! {

/// Whether a record says what a batch says of its record at `r`.
pub open spec fn tells(record: consumer::FullRecord, batch: records::Batch, r: int) -> bool {
    &&& record.offset == batch.records[r].offset
    &&& record.producer_id == batch.producer_id
    &&& record.transactional == batch.transactional
    &&& record.control == batch.control
    &&& record.key == records::range_of(batch.body, batch.records[r].key)
}

/// Whether a list of records is that of some batches, laid end to end.
pub open spec fn laid_out(batches: Seq<records::Batch>, list: Seq<consumer::FullRecord>) -> bool {
    &&& list.len() == record_ref::records_in(batches, batches.len())
    &&& forall|b: int, r: int|
        #![trigger batches[b].records[r]]
        0 <= b < batches.len() && 0 <= r < batches[b].records.len() ==> tells(
            list[record_ref::records_in(batches, b as nat) + r],
            batches[b],
            r,
        )
}

/// Whether every batch holds a record, and offsets ascend through all of them.
pub open spec fn in_offset_order(
    batches: Seq<records::Batch>,
    list: Seq<consumer::FullRecord>,
) -> bool {
    &&& forall|b: int| 0 <= b < batches.len() ==> (#[trigger] batches[b]).records.len() > 0
    &&& forall|i: int, j: int|
        0 <= i < j < list.len() ==> (#[trigger] list[i]).offset < (#[trigger] list[j]).offset
}

/// Whether no aborted transaction begins inside a batch.
pub open spec fn begins_at_batches(
    batches: Seq<records::Batch>,
    aborted: Seq<AbortedTransaction>,
) -> bool {
    forall|b: int, m: int|
        #![trigger batches[b], aborted[m]]
        0 <= b < batches.len() && 0 <= m < aborted.len() ==> !(batches[b].records[0].offset
            < aborted[m].first_offset <= batches[b].records.last().offset)
}

/// The offsets of the records of the first `n` batches, in order.
pub open spec fn offsets_in(batches: Seq<records::Batch>, n: nat) -> Seq<i64>
    decreases n,
{
    if n == 0 {
        Seq::empty()
    } else {
        offsets_in(batches, (n - 1) as nat) + lean_offsets(batches[n - 1].records)
    }
}

pub open spec fn lean_offsets(list: Seq<LeanRecord>) -> Seq<i64> {
    list.map_values(|r: LeanRecord| r.offset)
}

pub open spec fn full_offsets(list: Seq<consumer::FullRecord>) -> Seq<i64> {
    list.map_values(|r: consumer::FullRecord| r.offset)
}

proof fn lemma_records_in_grows(batches: Seq<records::Batch>, a: nat, b: nat)
    requires
        a <= b <= batches.len(),
    ensures
        record_ref::records_in(batches, a) <= record_ref::records_in(batches, b),
        a < b ==> record_ref::records_in(batches, a) + batches[a as int].records.len() <= record_ref::records_in(
            batches,
            b,
        ),
    decreases b - a,
{
    if a < b {
        lemma_records_in_grows(batches, a, (b - 1) as nat);
    }
}

/// The batch that holds the record at `i`.
spec fn batch_at(batches: Seq<records::Batch>, i: int, n: nat) -> int
    decreases n,
{
    if n == 0 {
        0
    } else if i >= record_ref::records_in(batches, (n - 1) as nat) {
        n - 1
    } else {
        batch_at(batches, i, (n - 1) as nat)
    }
}

proof fn lemma_batch_at(batches: Seq<records::Batch>, i: int, n: nat)
    requires
        n <= batches.len(),
        0 <= i < record_ref::records_in(batches, n),
    ensures
        ({
            let b = batch_at(batches, i, n);
            &&& 0 <= b < n
            &&& record_ref::records_in(batches, b as nat) <= i < record_ref::records_in(batches, b as nat)
                + batches[b].records.len()
        }),
    decreases n,
{
    if n > 0 && i < record_ref::records_in(batches, (n - 1) as nat) {
        lemma_batch_at(batches, i, (n - 1) as nat);
    }
}

/// What the record-wise filter sees at the record `r` of batch `b`.
proof fn lemma_record_step(
    batches: Seq<records::Batch>,
    list: Seq<consumer::FullRecord>,
    b: int,
    r: int,
)
    requires
        laid_out(batches, list),
        0 <= b < batches.len(),
        0 <= r < batches[b].records.len(),
    ensures
        ({
            let i = record_ref::records_in(batches, b as nat) + r;
            let step = consumer::record_steps(list)[i];
            &&& 0 <= i < list.len()
            &&& step.offset == batches[b].records[r].offset
            &&& step.producer == batches[b].producer_id
            &&& step.abort ==> records::closes(batches[b])
        }),
{
    lemma_records_in_grows(batches, b as nat, batches.len());
    let i = record_ref::records_in(batches, b as nat) + r;
    assert(tells(list[i], batches[b], r));
}

/// Where the batches before `c` begin before a transaction, their records lie before it.
proof fn lemma_ends_before(
    batches: Seq<records::Batch>,
    list: Seq<consumer::FullRecord>,
    aborted: Seq<AbortedTransaction>,
    m: int,
    c: int,
    k: int,
)
    requires
        laid_out(batches, list),
        in_offset_order(batches, list),
        begins_at_batches(batches, aborted),
        0 <= m < aborted.len(),
        0 <= c < batches.len(),
        consumer::begins(records::batch_steps(batches), aborted[m].first_offset, c),
        0 <= k < record_ref::records_in(batches, c as nat),
    ensures
        0 <= k < list.len(),
        consumer::record_steps(list)[k].offset < aborted[m].first_offset,
{
    lemma_batch_at(batches, k, c as nat);
    let b = batch_at(batches, k, c as nat);
    let start = record_ref::records_in(batches, b as nat);
    let last = batches[b].records.len() - 1;
    lemma_record_step(batches, list, b, k - start);
    lemma_record_step(batches, list, b, last);
    assert(records::batch_steps(batches)[b].offset < aborted[m].first_offset);
    assert(batches[b].records.last() == batches[b].records[last]);
    assert(!(batches[b].records[0].offset < aborted[m].first_offset
        <= batches[b].records.last().offset));
    if k < start + last {
        assert(list[k].offset < list[start + last].offset);
    }
}

/// A transaction that does not begin inside a batch begins, for the one filter, at the
/// record where, for the other, its batch does.
proof fn lemma_begins_alike(
    batches: Seq<records::Batch>,
    list: Seq<consumer::FullRecord>,
    aborted: Seq<AbortedTransaction>,
    m: int,
    c: int,
)
    requires
        laid_out(batches, list),
        in_offset_order(batches, list),
        begins_at_batches(batches, aborted),
        0 <= m < aborted.len(),
        0 <= c < batches.len(),
    ensures
        consumer::begins(records::batch_steps(batches), aborted[m].first_offset, c)
            <==> consumer::begins(
            consumer::record_steps(list),
            aborted[m].first_offset,
            record_ref::records_in(batches, c as nat) as int,
        ),
{
    let f = aborted[m].first_offset;
    let steps = consumer::record_steps(list);
    let outer = records::batch_steps(batches);
    let at = record_ref::records_in(batches, c as nat) as int;
    lemma_record_step(batches, list, c, 0);
    assert(outer[c].offset == batches[c].records[0].offset);
    if consumer::begins(outer, f, c) {
        assert forall|k: int| 0 <= k < at implies (#[trigger] steps[k]).offset < f by {
            lemma_ends_before(batches, list, aborted, m, c, k);
        }
    }
    if consumer::begins(steps, f, at) {
        assert forall|k: int| 0 <= k < c implies (#[trigger] outer[k]).offset < f by {
            lemma_record_step(batches, list, k, 0);
            lemma_records_in_grows(batches, k as nat, c as nat);
            assert(steps[record_ref::records_in(batches, k as nat) as int].offset < f);
        }
    }
}

/// A transaction begins at the first record of a batch, if it begins at all.
proof fn lemma_begins_at_a_batch(
    batches: Seq<records::Batch>,
    list: Seq<consumer::FullRecord>,
    aborted: Seq<AbortedTransaction>,
    m: int,
    j: int,
)
    requires
        laid_out(batches, list),
        in_offset_order(batches, list),
        begins_at_batches(batches, aborted),
        0 <= m < aborted.len(),
        consumer::begins(consumer::record_steps(list), aborted[m].first_offset, j),
    ensures
        ({
            let c = batch_at(batches, j, batches.len());
            0 <= c < batches.len() && j == record_ref::records_in(batches, c as nat)
        }),
{
    let steps = consumer::record_steps(list);
    lemma_batch_at(batches, j, batches.len());
    let c = batch_at(batches, j, batches.len());
    let start = record_ref::records_in(batches, c as nat) as int;
    let last = batches[c].records.len() - 1;
    lemma_record_step(batches, list, c, 0);
    lemma_record_step(batches, list, c, j - start);
    lemma_record_step(batches, list, c, last);
    if start < j {
        assert(steps[start].offset < aborted[m].first_offset);
        assert(batches[c].records.last() == batches[c].records[last]);
        if j < start + last {
            assert(list[j].offset < list[start + last].offset);
        }
        assert(!(batches[c].records[0].offset < aborted[m].first_offset
            <= batches[c].records.last().offset));
    }
}

/// Up to a record of a batch with data, a producer's abort marker was passed by the one
/// filter exactly if it was passed by the other.
proof fn lemma_unclosed_alike(
    batches: Seq<records::Batch>,
    list: Seq<consumer::FullRecord>,
    producer: i64,
    c: int,
    b: int,
    r: int,
)
    requires
        laid_out(batches, list),
        0 <= c <= b < batches.len(),
        0 <= r < batches[b].records.len(),
        !batches[b].control,
    ensures
        consumer::unclosed(records::batch_steps(batches), producer, c, b) <==> consumer::unclosed(
            consumer::record_steps(list),
            producer,
            record_ref::records_in(batches, c as nat) as int,
            record_ref::records_in(batches, b as nat) + r,
        ),
{
    let steps = consumer::record_steps(list);
    let outer = records::batch_steps(batches);
    let from = record_ref::records_in(batches, c as nat) as int;
    let to = record_ref::records_in(batches, b as nat) + r;
    lemma_records_in_grows(batches, c as nat, b as nat);
    lemma_record_step(batches, list, b, r);
    if consumer::unclosed(outer, producer, c, b) {
        assert forall|k: int| from <= k < to implies !((#[trigger] steps[k]).abort
            && steps[k].producer == producer) by {
            lemma_batch_at(batches, k, batches.len());
            let d = batch_at(batches, k, batches.len());
            let s = k - record_ref::records_in(batches, d as nat);
            lemma_record_step(batches, list, d, s);
            if d < c {
                lemma_records_in_grows(batches, d as nat, c as nat);
            }
            if d > b {
                lemma_records_in_grows(batches, b as nat, d as nat);
            }
            if d < b {
                assert(!(outer[d].abort && outer[d].producer == producer));
            }
        }
    }
    if consumer::unclosed(steps, producer, from, to) {
        assert forall|d: int| c <= d < b implies !((#[trigger] outer[d]).abort && outer[d].producer
            == producer) by {
            if outer[d].abort && outer[d].producer == producer {
                let s = choose|s: int|
                    0 <= s < batches[d].records.len() && records::marker_type(
                        records::range_of(batches[d].body, (#[trigger] batches[d].records[s]).key),
                    ) == Some(consumer::CONTROL_ABORT);
                let k = record_ref::records_in(batches, d as nat) + s;
                lemma_record_step(batches, list, d, s);
                assert(tells(list[k], batches[d], s));
                lemma_records_in_grows(batches, c as nat, d as nat);
                lemma_records_in_grows(batches, d as nat, b as nat);
                assert(steps[k].abort && steps[k].producer == producer);
            }
        }
    }
}

/// A record of a batch with data lies in an aborted transaction exactly if its batch does.
proof fn lemma_aborted_alike(
    batches: Seq<records::Batch>,
    list: Seq<consumer::FullRecord>,
    aborted: Seq<AbortedTransaction>,
    b: int,
    r: int,
)
    requires
        laid_out(batches, list),
        in_offset_order(batches, list),
        begins_at_batches(batches, aborted),
        0 <= b < batches.len(),
        0 <= r < batches[b].records.len(),
        !batches[b].control,
    ensures
        consumer::aborted_at(
            records::batch_steps(batches),
            aborted,
            batches[b].producer_id,
            b,
        ) == consumer::aborted_at(
            consumer::record_steps(list),
            aborted,
            batches[b].producer_id,
            record_ref::records_in(batches, b as nat) + r,
        ),
{
    let steps = consumer::record_steps(list);
    let outer = records::batch_steps(batches);
    let p = batches[b].producer_id;
    let i = record_ref::records_in(batches, b as nat) + r;
    if consumer::aborted_at(outer, aborted, p, b) {
        let (m, c) = choose|m: int, c: int|
            0 <= m < aborted.len() && (#[trigger] aborted[m]).producer_id == p
                && #[trigger] consumer::covers(outer, aborted[m], b, c);
        lemma_begins_alike(batches, list, aborted, m, c);
        lemma_unclosed_alike(batches, list, p, c, b, r);
        lemma_records_in_grows(batches, c as nat, b as nat);
        assert(consumer::covers(steps, aborted[m], i, record_ref::records_in(batches, c as nat) as int));
    }
    if consumer::aborted_at(steps, aborted, p, i) {
        let (m, j) = choose|m: int, j: int|
            0 <= m < aborted.len() && (#[trigger] aborted[m]).producer_id == p
                && #[trigger] consumer::covers(steps, aborted[m], i, j);
        lemma_begins_at_a_batch(batches, list, aborted, m, j);
        let c = batch_at(batches, j, batches.len());
        if c > b {
            lemma_records_in_grows(batches, b as nat, c as nat);
        }
        lemma_begins_alike(batches, list, aborted, m, c);
        lemma_unclosed_alike(batches, list, p, c, b, r);
        assert(consumer::covers(outer, aborted[m], b, c));
    }
}

/// How many records of a batch, from its first on, are stable.
spec fn stable_part(
    list: Seq<LeanRecord>,
    last_stable_offset: i64,
    isolation: IsolationLevel,
) -> nat
    decreases list.len(),
{
    if isolation == IsolationLevel::ReadCommitted && list.len() > 0 && list.last().offset
        >= last_stable_offset {
        stable_part(list.drop_last(), last_stable_offset, isolation)
    } else {
        list.len()
    }
}

/// Whether the offsets of a batch ascend.
spec fn ascends(list: Seq<LeanRecord>) -> bool {
    forall|i: int, j: int|
        0 <= i < j < list.len() ==> (#[trigger] list[i]).offset < (#[trigger] list[j]).offset
}

proof fn lemma_stable_part(
    list: Seq<LeanRecord>,
    last_stable_offset: i64,
    isolation: IsolationLevel,
)
    requires
        ascends(list),
    ensures
        ({
            let n = stable_part(list, last_stable_offset, isolation);
            &&& n <= list.len()
            &&& isolation == IsolationLevel::ReadUncommitted ==> n == list.len()
            &&& isolation == IsolationLevel::ReadCommitted ==> forall|i: int|
                0 <= i < n ==> (#[trigger] list[i]).offset < last_stable_offset
            &&& n < list.len() ==> isolation == IsolationLevel::ReadCommitted
                && list[n as int].offset >= last_stable_offset
        }),
    decreases list.len(),
{
    if isolation == IsolationLevel::ReadCommitted && list.len() > 0 {
        if list.last().offset >= last_stable_offset {
            lemma_stable_part(list.drop_last(), last_stable_offset, isolation);
            let n = stable_part(list, last_stable_offset, isolation);
            assert forall|i: int| 0 <= i < n implies (#[trigger] list[i]).offset
                < last_stable_offset by {
                assert(list.drop_last()[i] == list[i]);
            }
        } else {
            assert forall|i: int| 0 <= i < list.len() implies (#[trigger] list[i]).offset
                < last_stable_offset by {
                if i < list.len() - 1 {
                    assert(list[i].offset < list[list.len() - 1].offset);
                }
            }
        }
    }
}

/// The stable records are the first ones.
proof fn lemma_stable_records(
    list: Seq<LeanRecord>,
    last_stable_offset: i64,
    isolation: IsolationLevel,
)
    requires
        ascends(list),
    ensures
        records::stable_records(list, last_stable_offset, isolation) == list.take(
            stable_part(list, last_stable_offset, isolation) as int,
        ),
    decreases list.len(),
{
    reveal(Seq::filter);
    let n = stable_part(list, last_stable_offset, isolation) as int;
    lemma_stable_part(list, last_stable_offset, isolation);
    if isolation == IsolationLevel::ReadCommitted {
        if list.len() == 0 {
            assert(list.take(0) =~= Seq::empty());
        } else {
            let less = list.drop_last();
            lemma_stable_part(less, last_stable_offset, isolation);
            lemma_stable_records(less, last_stable_offset, isolation);
            if list.last().offset >= last_stable_offset {
                assert(list.take(n) =~= less.take(n));
            } else {
                let m = stable_part(less, last_stable_offset, isolation);
                if m < less.len() {
                    assert(list[m as int].offset < list[list.len() - 1].offset);
                }
                assert(less.take(m as int) =~= less);
                assert(list.take(n) =~= less.push(list.last()));
            }
        }
    } else {
        assert(list.take(n) =~= list);
    }
}

/// What lies in reach is what of the stable records is not before the fetch offset.
proof fn lemma_in_reach_is_stable(
    batch: records::Batch,
    last_stable_offset: i64,
    isolation: IsolationLevel,
    fetch_offset: i64,
)
    requires
        ascends(batch.records),
        batch.records.len() > 0,
    ensures
        records::in_reach(batch, last_stable_offset, isolation, fetch_offset).records
            == batch.records.take(
            stable_part(batch.records, last_stable_offset, isolation) as int,
        ).filter(|r: LeanRecord| r.offset >= fetch_offset),
{
    let list = batch.records;
    if list[0].offset >= fetch_offset {
        lemma_all_late(list, fetch_offset);
    }
    if isolation == IsolationLevel::ReadCommitted {
        lemma_cut_twice(list, last_stable_offset, isolation, fetch_offset);
    } else {
        assert(list.take(list.len() as int) =~= list);
    }
}

proof fn lemma_all_late(list: Seq<LeanRecord>, fetch_offset: i64)
    requires
        ascends(list),
        list.len() > 0 ==> list[0].offset >= fetch_offset,
    ensures
        list.filter(|r: LeanRecord| r.offset >= fetch_offset) == list,
    decreases list.len(),
{
    reveal(Seq::filter);
    if list.len() > 0 {
        lemma_all_late(list.drop_last(), fetch_offset);
        if list.len() > 1 {
            assert(list[0].offset < list[list.len() - 1].offset);
        }
        assert(list.drop_last().push(list.last()) =~= list);
    }
}

proof fn lemma_cut_twice(
    list: Seq<LeanRecord>,
    last_stable_offset: i64,
    isolation: IsolationLevel,
    fetch_offset: i64,
)
    requires
        ascends(list),
        isolation == IsolationLevel::ReadCommitted,
    ensures
        list.filter(|r: LeanRecord| r.offset >= fetch_offset).filter(
            |r: LeanRecord| r.offset < last_stable_offset,
        ) == list.take(stable_part(list, last_stable_offset, isolation) as int).filter(
            |r: LeanRecord| r.offset >= fetch_offset,
        ),
    decreases list.len(),
{
    reveal(Seq::filter);
    let from = |r: LeanRecord| r.offset >= fetch_offset;
    let below = |r: LeanRecord| r.offset < last_stable_offset;
    let n = stable_part(list, last_stable_offset, isolation) as int;
    lemma_stable_part(list, last_stable_offset, isolation);
    if list.len() == 0 {
        assert(list.take(n) =~= list);
        assert(list.filter(from) =~= list);
        assert(list.filter(from).filter(below) =~= list);
    } else {
        let less = list.drop_last();
        let last = list.last();
        lemma_cut_twice(less, last_stable_offset, isolation, fetch_offset);
        lemma_stable_part(less, last_stable_offset, isolation);
        if from(last) {
            let all = less.filter(from).push(last);
            assert(list.filter(from) == all);
            assert(all.drop_last() =~= less.filter(from));
            assert(all.last() == last);
        }
        if last.offset >= last_stable_offset {
            assert(list.take(n) =~= less.take(n));
        } else {
            let m = stable_part(less, last_stable_offset, isolation);
            if m < less.len() {
                assert(list[m as int].offset < list[list.len() - 1].offset);
            }
            assert(less.take(m as int) =~= less);
            assert(list.take(n) =~= list);
        }
    }
}

/// Whether the batch-wise filter drops a batch as a whole.
spec fn hidden(
    batches: Seq<records::Batch>,
    aborted: Seq<AbortedTransaction>,
    isolation: IsolationLevel,
    b: int,
) -> bool {
    batches[b].control || (isolation == IsolationLevel::ReadCommitted && batches[b].transactional
        && consumer::aborted_at(
        records::batch_steps(batches),
        aborted,
        batches[b].producer_id,
        b,
    ))
}

/// What the record-wise filter keeps of the first `x` records of a batch.
proof fn lemma_seen_of_batch(
    batches: Seq<records::Batch>,
    list: Seq<consumer::FullRecord>,
    aborted: Seq<AbortedTransaction>,
    isolation: IsolationLevel,
    fetch_offset: i64,
    b: int,
    x: nat,
)
    requires
        laid_out(batches, list),
        in_offset_order(batches, list),
        begins_at_batches(batches, aborted),
        0 <= b < batches.len(),
        x <= batches[b].records.len(),
    ensures
        ({
            let start = record_ref::records_in(batches, b as nat);
            let before = consumer::visible_among(list, aborted, isolation, fetch_offset, start);
            let now = consumer::visible_among(list, aborted, isolation, fetch_offset, start + x);
            full_offsets(now) == full_offsets(before) + if hidden(batches, aborted, isolation, b) {
                Seq::empty()
            } else {
                lean_offsets(
                    batches[b].records.take(x as int).filter(
                        |r: LeanRecord| r.offset >= fetch_offset,
                    ),
                )
            }
        }),
    decreases x,
{
    reveal(Seq::filter);
    let from = |r: LeanRecord| r.offset >= fetch_offset;
    let start = record_ref::records_in(batches, b as nat);
    let before = consumer::visible_among(list, aborted, isolation, fetch_offset, start);
    let now = consumer::visible_among(list, aborted, isolation, fetch_offset, start + x);
    let part = batches[b].records.take(x as int);
    if x == 0 {
        assert(part.filter(from) =~= Seq::empty());
        assert(full_offsets(before) + Seq::<i64>::empty() =~= full_offsets(before));
        assert(full_offsets(before) + lean_offsets(Seq::empty()) =~= full_offsets(before));
    } else {
        lemma_seen_of_batch(
            batches,
            list,
            aborted,
            isolation,
            fetch_offset,
            b,
            (x - 1) as nat,
        );
        let i = start + x - 1;
        let earlier = consumer::visible_among(
            list,
            aborted,
            isolation,
            fetch_offset,
            (start + x - 1) as nat,
        );
        let less = batches[b].records.take(x - 1);
        lemma_record_step(batches, list, b, x - 1);
        assert(tells(list[i], batches[b], x - 1)) by {
            assert(batches[b].records[x - 1].offset == batches[b].records[x - 1].offset);
        }
        if !batches[b].control {
            lemma_aborted_alike(batches, list, aborted, b, x - 1);
        }
        assert(part.drop_last() =~= less);
        assert(part.last() == batches[b].records[x - 1]);
        let seen = consumer::visible(list, aborted, isolation, fetch_offset, i);
        if seen {
            assert(now == earlier.push(list[i]));
            assert(full_offsets(now) =~= full_offsets(earlier).push(list[i].offset));
            assert(part.filter(from) == less.filter(from).push(part.last()));
            assert(lean_offsets(part.filter(from)) =~= lean_offsets(less.filter(from)).push(
                list[i].offset,
            ));
            assert(full_offsets(now) =~= full_offsets(before) + lean_offsets(part.filter(from)));
        } else {
            assert(now == earlier);
        }
    }
}

/// The offsets of a batch of some laid out ones ascend.
proof fn lemma_batch_ascends(
    batches: Seq<records::Batch>,
    list: Seq<consumer::FullRecord>,
    b: int,
)
    requires
        laid_out(batches, list),
        in_offset_order(batches, list),
        0 <= b < batches.len(),
    ensures
        ascends(batches[b].records),
{
    assert forall|i: int, j: int| 0 <= i < j < batches[b].records.len() implies (
    #[trigger] batches[b].records[i]).offset < (#[trigger] batches[b].records[j]).offset by {
        lemma_record_step(batches, list, b, i);
        lemma_record_step(batches, list, b, j);
        let start = record_ref::records_in(batches, b as nat);
        assert(list[start + i].offset < list[start + j].offset);
    }
}

/// What the batch-wise filter leaves of the first `n` batches, all but the last of which
/// are stable, is what the record-wise filter keeps of their stable records.
proof fn lemma_left_alike(
    batches: Seq<records::Batch>,
    list: Seq<consumer::FullRecord>,
    aborted: Seq<AbortedTransaction>,
    last_stable_offset: i64,
    isolation: IsolationLevel,
    fetch_offset: i64,
    n: nat,
)
    requires
        laid_out(batches, list),
        in_offset_order(batches, list),
        begins_at_batches(batches, aborted),
        n <= batches.len(),
        forall|b: int|
            0 <= b < n - 1 ==> stable_part(
                (#[trigger] batches[b]).records,
                last_stable_offset,
                isolation,
            ) == batches[b].records.len(),
    ensures
        ({
            let left = records::left_of(
                batches,
                aborted,
                last_stable_offset,
                isolation,
                fetch_offset,
                n,
            );
            let count = if n == 0 {
                0
            } else {
                record_ref::records_in(batches, (n - 1) as nat) + stable_part(
                    batches[n - 1].records,
                    last_stable_offset,
                    isolation,
                )
            };
            offsets_in(left, left.len()) == full_offsets(
                consumer::visible_among(list, aborted, isolation, fetch_offset, count),
            )
        }),
    decreases n,
{
    let left = records::left_of(
        batches,
        aborted,
        last_stable_offset,
        isolation,
        fetch_offset,
        n,
    );
    if n == 0 {
        assert(full_offsets(Seq::empty()) =~= Seq::empty());
    } else {
        let b = n - 1;
        let earlier = records::left_of(
            batches,
            aborted,
            last_stable_offset,
            isolation,
            fetch_offset,
            b as nat,
        );
        lemma_left_alike(
            batches,
            list,
            aborted,
            last_stable_offset,
            isolation,
            fetch_offset,
            b as nat,
        );
        if b > 0 {
            assert(stable_part(batches[b - 1].records, last_stable_offset, isolation)
                == batches[b - 1].records.len());
        }
        lemma_batch_ascends(batches, list, b);
        let batch = batches[b];
        let x = stable_part(batch.records, last_stable_offset, isolation);
        lemma_stable_part(batch.records, last_stable_offset, isolation);
        lemma_seen_of_batch(batches, list, aborted, isolation, fetch_offset, b, x);
        lemma_in_reach_is_stable(batch, last_stable_offset, isolation, fetch_offset);
        let cut = records::in_reach(batch, last_stable_offset, isolation, fetch_offset);
        if hidden(batches, aborted, isolation, b) {
            assert(left == earlier);
            assert(offsets_in(left, left.len()) + Seq::<i64>::empty() =~= offsets_in(
                left,
                left.len(),
            ));
        } else if cut.records.len() == 0 {
            assert(left == earlier);
            assert(lean_offsets(cut.records) =~= Seq::empty());
            assert(offsets_in(left, left.len()) + Seq::<i64>::empty() =~= offsets_in(
                left,
                left.len(),
            ));
        } else {
            assert(left == earlier.push(cut));
            lemma_offsets_prefix(earlier, left, earlier.len());
        }
    }
}

proof fn lemma_offsets_prefix(
    one: Seq<records::Batch>,
    other: Seq<records::Batch>,
    n: nat,
)
    requires
        n <= one.len(),
        n <= other.len(),
        forall|i: int| 0 <= i < n ==> one[i] == other[i],
    ensures
        offsets_in(one, n) == offsets_in(other, n),
    decreases n,
{
    if n > 0 {
        lemma_offsets_prefix(one, other, (n - 1) as nat);
    }
}

/// How many records the record-wise filter takes in: those of all batches that the other
/// one takes in, of the last one the stable ones.
proof fn lemma_stable_alike(
    batches: Seq<records::Batch>,
    list: Seq<consumer::FullRecord>,
    last_stable_offset: i64,
    isolation: IsolationLevel,
)
    requires
        laid_out(batches, list),
        in_offset_order(batches, list),
    ensures
        ({
            let n = consumer::stable_len(
                records::batch_steps(batches),
                isolation,
                last_stable_offset,
                0,
            );
            let m = consumer::stable_len(
                consumer::record_steps(list),
                isolation,
                last_stable_offset,
                0,
            );
            &&& n <= batches.len()
            &&& n == 0 ==> m == 0
            &&& n > 0 ==> m == record_ref::records_in(batches, (n - 1) as nat) + stable_part(
                batches[n - 1].records,
                last_stable_offset,
                isolation,
            ) && stable_part(batches[n - 1].records, last_stable_offset, isolation) > 0
            &&& forall|b: int|
                0 <= b < n - 1 ==> stable_part(
                    (#[trigger] batches[b]).records,
                    last_stable_offset,
                    isolation,
                ) == batches[b].records.len()
        }),
{
    let outer = records::batch_steps(batches);
    let steps = consumer::record_steps(list);
    let n = consumer::stable_len(outer, isolation, last_stable_offset, 0);
    let m = consumer::stable_len(steps, isolation, last_stable_offset, 0);
    consumer::law_nothing_past_the_last_stable_offset(outer, isolation, last_stable_offset);
    consumer::law_nothing_past_the_last_stable_offset(steps, isolation, last_stable_offset);
    assert forall|b: int| 0 <= b < n - 1 implies stable_part(
        (#[trigger] batches[b]).records,
        last_stable_offset,
        isolation,
    ) == batches[b].records.len() by {
        lemma_batch_ascends(batches, list, b);
        lemma_stable_part(batches[b].records, last_stable_offset, isolation);
        let x = stable_part(batches[b].records, last_stable_offset, isolation) as int;
        if x < batches[b].records.len() {
            lemma_record_step(batches, list, b, x);
            lemma_record_step(batches, list, b + 1, 0);
            lemma_records_in_grows(batches, b as nat, (b + 1) as nat);
            let i = record_ref::records_in(batches, b as nat) + x;
            let j = record_ref::records_in(batches, (b + 1) as nat) as int;
            assert(list[i].offset < list[j].offset);
            assert(outer[b + 1].offset == batches[b + 1].records[0].offset);
        }
    }
    if n == 0 {
        if batches.len() > 0 {
            lemma_record_step(batches, list, 0, 0);
            assert(outer[0].offset == batches[0].records[0].offset);
            if m > 0 {
                assert(steps[0].offset < last_stable_offset);
            }
        }
    } else {
        let b = n - 1;
        lemma_batch_ascends(batches, list, b);
        lemma_stable_part(batches[b].records, last_stable_offset, isolation);
        let x = stable_part(batches[b].records, last_stable_offset, isolation) as int;
        let start = record_ref::records_in(batches, b as nat);
        let end = start + x;
        assert(outer[b].offset == batches[b].records[0].offset);
        assert(x > 0);
        lemma_record_step(batches, list, b, x - 1);
        if m < end {
            if m < end - 1 {
                assert(list[m as int].offset < list[end - 1].offset);
            }
            assert(steps[m as int].offset >= last_stable_offset);
            assert(false);
        }
        if m > end {
            if x < batches[b].records.len() {
                lemma_record_step(batches, list, b, x);
            } else {
                if n == batches.len() {
                    assert(end == list.len());
                } else {
                    lemma_record_step(batches, list, b + 1, 0);
                    assert(record_ref::records_in(batches, (b + 1) as nat) == end);
                    assert(outer[b + 1].offset == batches[b + 1].records[0].offset);
                }
            }
            assert(steps[end].offset < last_stable_offset || isolation
                == IsolationLevel::ReadUncommitted);
            assert(false);
        }
    }
}

/// Whether a fetch is read record by record or batch by batch makes no difference. Given
/// batches that each hold a record, whose offsets ascend and inside of which no aborted
/// transaction begins, and the same records one by one: both filters hand out records of
/// the same offsets, in the same order, both say that the next fetch starts at the same
/// place, and none of the batches handed out is empty or a control batch.
pub proof fn law_both_filters_agree(
    batches: Seq<records::Batch>,
    list: Seq<consumer::FullRecord>,
    aborted: Seq<AbortedTransaction>,
    last_stable_offset: i64,
    isolation: IsolationLevel,
    fetch_offset: i64,
)
    requires
        laid_out(batches, list),
        in_offset_order(batches, list),
        begins_at_batches(batches, aborted),
    ensures
        ({
            let n = consumer::stable_len(
                records::batch_steps(batches),
                isolation,
                last_stable_offset,
                0,
            );
            let m = consumer::stable_len(
                consumer::record_steps(list),
                isolation,
                last_stable_offset,
                0,
            );
            let left = records::left_of(
                batches,
                aborted,
                last_stable_offset,
                isolation,
                fetch_offset,
                n,
            );
            &&& records::nonempty(batches) == batches
            &&& offsets_in(left, left.len()) == full_offsets(
                consumer::visible_among(list, aborted, isolation, fetch_offset, m),
            )
            &&& records::batch_position(batches, n, last_stable_offset, isolation, fetch_offset)
                == consumer::position_after(list, m, fetch_offset)
            &&& forall|k: int|
                0 <= k < left.len() ==> (#[trigger] left[k]).records.len() > 0 && !left[k].control
        }),
{
    let n = consumer::stable_len(
        records::batch_steps(batches),
        isolation,
        last_stable_offset,
        0,
    );
    lemma_stable_alike(batches, list, last_stable_offset, isolation);
    lemma_left_alike(
        batches,
        list,
        aborted,
        last_stable_offset,
        isolation,
        fetch_offset,
        n,
    );
    lemma_nonempty_all(batches);
    lemma_left_holds_data(
        batches,
        aborted,
        last_stable_offset,
        isolation,
        fetch_offset,
        n,
    );
    if n > 0 {
        let records = batches[n - 1].records;
        let x = stable_part(records, last_stable_offset, isolation) as int;
        lemma_batch_ascends(batches, list, n - 1);
        lemma_stable_part(records, last_stable_offset, isolation);
        lemma_stable_records(records, last_stable_offset, isolation);
        lemma_record_step(batches, list, n - 1, x - 1);
        assert(records.take(x).last() == records[x - 1]);
    }
}

proof fn lemma_nonempty_all(batches: Seq<records::Batch>)
    requires
        forall|b: int| 0 <= b < batches.len() ==> (#[trigger] batches[b]).records.len() > 0,
    ensures
        records::nonempty(batches) == batches,
    decreases batches.len(),
{
    reveal(Seq::filter);
    if batches.len() > 0 {
        let less = batches.drop_last();
        assert forall|b: int| 0 <= b < less.len() implies (#[trigger] less[b]).records.len() > 0 by {
            assert(less[b] == batches[b]);
        }
        lemma_nonempty_all(less);
        assert(batches[batches.len() - 1].records.len() > 0);
        assert(less.push(batches.last()) =~= batches);
    }
}

proof fn lemma_left_holds_data(
    batches: Seq<records::Batch>,
    aborted: Seq<AbortedTransaction>,
    last_stable_offset: i64,
    isolation: IsolationLevel,
    fetch_offset: i64,
    n: nat,
)
    requires
        n <= batches.len(),
    ensures
        ({
            let left = records::left_of(
                batches,
                aborted,
                last_stable_offset,
                isolation,
                fetch_offset,
                n,
            );
            forall|k: int|
                0 <= k < left.len() ==> (#[trigger] left[k]).records.len() > 0 && !left[k].control
        }),
    decreases n,
{
    if n > 0 {
        lemma_left_holds_data(
            batches,
            aborted,
            last_stable_offset,
            isolation,
            fetch_offset,
            (n - 1) as nat,
        );
        let earlier = records::left_of(
            batches,
            aborted,
            last_stable_offset,
            isolation,
            fetch_offset,
            (n - 1) as nat,
        );
        let left = records::left_of(
            batches,
            aborted,
            last_stable_offset,
            isolation,
            fetch_offset,
            n,
        );
        assert forall|k: int| 0 <= k < left.len() implies (#[trigger] left[k]).records.len() > 0
            && !left[k].control by {
            if k < earlier.len() {
                assert(left[k] == earlier[k]);
            }
        }
    }
}

} // verus!
