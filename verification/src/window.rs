//! What a window of pipelined writes did to the queues it was taken from.
//!
//! A window carries the first batch of every partition in its round 0, the second in
//! its round 1, and so on. **Only the contiguous leading run of successes leaves a
//! queue.** Once a round failed for a partition, its later rounds are void whatever they
//! answered: the broker never wrote the failed one, so it refused what came behind it
//! for being out of sequence. They stay queued, in order, behind the retry.
use crate::client::Disposition;
use crate::group;
use crate::group::TopicPartition;
use crate::names;
use crate::slots;
use crate::slots::SlotMap;
use std::collections::VecDeque;
use vstd::prelude::*;

verus! {

/// What one partition came back with in one round of a window.
#[derive(Debug)]
pub struct Answer {
    pub round: usize,
    pub slot: TopicPartition,
    pub code: i16,
    /// What the code asks for.
    pub disposition: Disposition,
    /// The first offset of the batch, where it was written.
    pub base_offset: i64,
}

/// What an [`Answer`] stands for.
pub ghost struct Reply {
    pub round: usize,
    pub slot: (Seq<char>, i32),
    pub code: i16,
    pub disposition: Disposition,
    pub base_offset: i64,
}

impl View for Answer {
    type V = Reply;

    open spec fn view(&self) -> Reply {
        Reply {
            round: self.round,
            slot: self.slot@,
            code: self.code,
            disposition: self.disposition,
            base_offset: self.base_offset,
        }
    }
}

/// What a list of answers stands for.
pub open spec fn replies_of(answers: Seq<Answer>) -> Seq<Reply> {
    Seq::new(answers.len(), |i: int| answers[i]@)
}

/// Whether every reply is a success.
pub open spec fn all_accepted(replies: Seq<Reply>) -> bool {
    forall|i: int| 0 <= i < replies.len() ==> (#[trigger] replies[i]).code == 0
}

/// Whether every answer is a success.
pub fn accepted(answers: &[Answer]) -> (yes: bool)
    ensures
        yes == all_accepted(replies_of(answers@)),
{
    let ghost replies = replies_of(answers@);
    let mut i: usize = 0;
    while i < answers.len()
        invariant
            i <= answers@.len(),
            replies == replies_of(answers@),
            forall|k: int| 0 <= k < i ==> (#[trigger] replies[k]).code == 0,
        decreases answers@.len() - i,
    {
        assert(replies[i as int] == answers@[i as int]@);
        if answers[i].code != 0 {
            return false;
        }
        i = i + 1;
    }
    true
}

/// The first of the first `n` replies that failed for a partition.
pub open spec fn failure(replies: Seq<Reply>, slot: (Seq<char>, i32), n: nat) -> Option<int>
    decreases n,
{
    if n == 0 {
        None
    } else {
        match failure(replies, slot, (n - 1) as nat) {
            Some(i) => Some(i),
            None => if replies[n - 1].slot == slot && replies[n - 1].code != 0 {
                Some(n - 1)
            } else {
                None
            },
        }
    }
}

/// Whether a reply is a partition's first failure. What comes behind one is a
/// consequence of it, not a new fact.
pub open spec fn is_first_failure(replies: Seq<Reply>, i: int) -> bool {
    replies[i].code != 0 && failure(replies, replies[i].slot, i as nat) is None
}

/// Whether a first failure with this disposition ends the stream: only a retry or a
/// refresh of the cluster map can mend it.
pub open spec fn ends_the_stream(disposition: Disposition) -> bool {
    disposition != Disposition::Retry && disposition != Disposition::RefreshMetadata
}

/// The first of the first `n` replies that ends the stream.
pub open spec fn end_of_stream(replies: Seq<Reply>, n: nat) -> Option<int>
    decreases n,
{
    if n == 0 {
        None
    } else {
        match end_of_stream(replies, (n - 1) as nat) {
            Some(i) => Some(i),
            None => if is_first_failure(replies, n - 1) && ends_the_stream(
                replies[n - 1].disposition,
            ) {
                Some(n - 1)
            } else {
                None
            },
        }
    }
}

/// The partitions among the first `n` replies whose first failure says that their
/// leader moved.
pub open spec fn moved(replies: Seq<Reply>, n: nat) -> Seq<(Seq<char>, i32)>
    decreases n,
{
    if n == 0 {
        Seq::empty()
    } else {
        let earlier = moved(replies, (n - 1) as nat);
        if is_first_failure(replies, n - 1) && replies[n - 1].disposition
            == Disposition::RefreshMetadata {
            earlier.push(replies[n - 1].slot)
        } else {
            earlier
        }
    }
}

/// Whether a reply belongs to its partition's leading run of successes.
pub open spec fn leads(replies: Seq<Reply>, i: int) -> bool {
    match failure(replies, replies[i].slot, replies.len()) {
        None => true,
        Some(j) => replies[i].round < replies[j].round,
    }
}

/// How many of the first `n` replies belong to a partition's leading run.
pub open spec fn led(replies: Seq<Reply>, slot: (Seq<char>, i32), n: nat) -> nat
    decreases n,
{
    if n == 0 {
        0
    } else {
        led(replies, slot, (n - 1) as nat) + if replies[n - 1].slot == slot && leads(
            replies,
            n - 1,
        ) {
            1nat
        } else {
            0
        }
    }
}

/// The offset that a partition reported for a round, -1 if it reported none.
pub open spec fn offset_at(
    replies: Seq<Reply>,
    slot: (Seq<char>, i32),
    round: usize,
    n: nat,
) -> i64
    decreases n,
{
    if n == 0 {
        (-1) as i64
    } else if replies[n - 1].slot == slot && replies[n - 1].round == round && replies[n - 1].code
        == 0 {
        replies[n - 1].base_offset
    } else {
        offset_at(replies, slot, round, (n - 1) as nat)
    }
}

/// The batches of a partition's queue, none if it has none.
pub open spec fn queue_of<T>(queues: Map<(Seq<char>, i32), Seq<T>>, slot: (Seq<char>, i32)) -> Seq<
    T,
> {
    if queues.dom().contains(slot) {
        queues[slot]
    } else {
        Seq::empty()
    }
}

/// What was written, in the order of the replies: every reply of a leading run that a
/// queued batch answers for.
pub open spec fn writes<T>(
    queues: Map<(Seq<char>, i32), Seq<T>>,
    replies: Seq<Reply>,
    n: nat,
) -> Seq<(Seq<char>, i32, i64)>
    decreases n,
{
    if n == 0 {
        Seq::empty()
    } else {
        let earlier = writes(queues, replies, (n - 1) as nat);
        let reply = replies[n - 1];
        if leads(replies, n - 1) && led(replies, reply.slot, (n - 1) as nat) < queue_of(
            queues,
            reply.slot,
        ).len() {
            earlier.push(
                (
                    reply.slot.0,
                    reply.slot.1,
                    offset_at(replies, reply.slot, reply.round, replies.len()),
                ),
            )
        } else {
            earlier
        }
    }
}

/// A queue without its first `n` batches.
pub open spec fn without_first<T>(queue: Seq<T>, n: nat) -> Seq<T> {
    if n < queue.len() {
        queue.skip(n as int)
    } else {
        Seq::empty()
    }
}

/// The queues after the first `n` replies were taken off them.
pub open spec fn after<T>(
    queues: Map<(Seq<char>, i32), Seq<T>>,
    replies: Seq<Reply>,
    n: nat,
) -> Map<(Seq<char>, i32), Seq<T>> {
    Map::new(
        |slot: (Seq<char>, i32)| queues.dom().contains(slot),
        |slot: (Seq<char>, i32)| without_first(queues[slot], led(replies, slot, n)),
    )
}

/// The queues that still hold something.
pub open spec fn occupied<T>(queues: Map<(Seq<char>, i32), Seq<T>>) -> Map<
    (Seq<char>, i32),
    Seq<T>,
> {
    Map::new(
        |slot: (Seq<char>, i32)| queues.dom().contains(slot) && queues[slot].len() > 0,
        |slot: (Seq<char>, i32)| queues[slot],
    )
}

/// What a map of queues stands for.
pub open spec fn queues_of<T>(pending: Map<(Seq<char>, i32), VecDeque<T>>) -> Map<
    (Seq<char>, i32),
    Seq<T>,
> {
    Map::new(
        |slot: (Seq<char>, i32)| pending.dom().contains(slot),
        |slot: (Seq<char>, i32)| pending[slot]@,
    )
}

/// What became of a window that did not end the stream.
#[derive(Debug)]
pub struct Settled {
    /// What was written, topic, partition and first offset, in the order of the answers.
    pub written: Vec<(String, i32, i64)>,
    /// The partitions whose leader moved.
    pub moved: Vec<TopicPartition>,
}

/// What a list of writes stands for.
pub open spec fn writes_of(written: Seq<(String, i32, i64)>) -> Seq<(Seq<char>, i32, i64)> {
    Seq::new(written.len(), |i: int| (written[i].0@, written[i].1, written[i].2))
}

/// The failures of a window.
struct Failures {
    /// The round of each partition's first failure.
    failed_at: SlotMap<usize>,
    moved: Vec<TopicPartition>,
    /// The answer that ends the stream.
    end: Option<usize>,
}

spec fn failures_known(
    failed_at: Map<(Seq<char>, i32), usize>,
    replies: Seq<Reply>,
    n: nat,
) -> bool {
    forall|slot: (Seq<char>, i32)|
        #![trigger failed_at.dom().contains(slot)]
        #![trigger failure(replies, slot, n)]
        match failure(replies, slot, n) {
            Some(i) => failed_at.dom().contains(slot) && failed_at[slot] == replies[i].round,
            None => !failed_at.dom().contains(slot),
        }
}

proof fn lemma_failure_bound(replies: Seq<Reply>, slot: (Seq<char>, i32), n: nat)
    ensures
        failure(replies, slot, n) matches Some(i) ==> 0 <= i < n && replies[i].slot == slot
            && replies[i].code != 0 && failure(replies, slot, i as nat) is None,
    decreases n,
{
    if n > 0 {
        lemma_failure_bound(replies, slot, (n - 1) as nat);
    }
}

/// Finds each partition's first failure, up to one that ends the stream.
fn find_failures(answers: &[Answer]) -> (found: Failures)
    ensures
        found.failed_at.well_formed(),
        ({
            let replies = replies_of(answers@);
            match found.end {
                Some(i) => i < answers@.len() && end_of_stream(replies, replies.len()) == Some(
                    i as int,
                ) && group::slots_of(found.moved@) == moved(replies, i as nat),
                None => end_of_stream(replies, replies.len()) is None && group::slots_of(found.moved@)
                    == moved(replies, replies.len()) && failures_known(
                    found.failed_at@,
                    replies,
                    replies.len(),
                ),
            }
        }),
{
    let ghost replies = replies_of(answers@);
    let mut failed_at: SlotMap<usize> = SlotMap::new();
    let mut gone: Vec<TopicPartition> = Vec::new();
    let mut i: usize = 0;
    while i < answers.len()
        invariant
            i <= answers@.len(),
            replies == replies_of(answers@),
            failed_at.well_formed(),
            failures_known(failed_at@, replies, i as nat),
            end_of_stream(replies, i as nat) is None,
            group::slots_of(gone@) == moved(replies, i as nat),
        decreases answers@.len() - i,
    {
        let answer = &answers[i];
        let ghost before = failed_at@;
        assert(replies[i as int] == answer@);
        if answer.code != 0 && !failed_at.contains(answer.slot.topic.as_str(), answer.slot.partition)
        {
            assert(failure(replies, answer.slot@, i as nat) is None);
            assert(is_first_failure(replies, i as int));
            match answer.disposition {
                Disposition::RefreshMetadata => {
                    let ghost earlier = gone@;
                    gone.push(answer.slot.clone());
                    assert(group::slots_of(gone@) =~= group::slots_of(earlier).push(answer.slot@));
                },
                Disposition::Retry => {},
                _ => {
                    proof {
                        lemma_end_stays(replies, (i + 1) as nat, replies.len());
                    }
                    return Failures { failed_at, moved: gone, end: Some(i) };
                },
            }
            failed_at.insert(answer.slot.topic.as_str(), answer.slot.partition, answer.round);
        } else {
            assert(failed_at@.dom().contains(answer.slot@) ==> failure(
                replies,
                answer.slot@,
                i as nat,
            ) is Some);
            assert(!is_first_failure(replies, i as int));
        }
        proof {
            assert forall|slot: (Seq<char>, i32)|
                #![trigger failed_at@.dom().contains(slot)]
                #![trigger failure(replies, slot, (i + 1) as nat)]
                match failure(replies, slot, (i + 1) as nat) {
                    Some(k) => failed_at@.dom().contains(slot) && failed_at@[slot]
                        == replies[k].round,
                    None => !failed_at@.dom().contains(slot),
                } by {
                assert(before.dom().contains(slot) == (failure(replies, slot, i as nat) is Some));
            }
        }
        i = i + 1;
    }
    Failures { failed_at, moved: gone, end: None }
}

proof fn lemma_end_stays(replies: Seq<Reply>, n: nat, m: nat)
    requires
        n <= m,
        end_of_stream(replies, n) is Some,
    ensures
        end_of_stream(replies, m) == end_of_stream(replies, n),
    decreases m,
{
    if n < m {
        lemma_end_stays(replies, n, (m - 1) as nat);
    }
}

/// Takes the leading runs of successes off their queues.
///
/// Where an answer ends the stream, nothing is taken off, and its index comes second.
pub fn settle<T>(pending: &mut SlotMap<VecDeque<T>>, answers: &[Answer]) -> (settled: (
    Settled,
    Option<usize>,
))
    requires
        old(pending).well_formed(),
    ensures
        final(pending).well_formed(),
        ({
            let replies = replies_of(answers@);
            let before = queues_of(old(pending)@);
            match settled.1 {
                Some(i) => {
                    &&& i < answers@.len()
                    &&& end_of_stream(replies, replies.len()) == Some(i as int)
                    &&& final(pending)@ == old(pending)@
                    &&& settled.0.written@.len() == 0
                    &&& group::slots_of(settled.0.moved@) == moved(replies, i as nat)
                },
                None => {
                    &&& end_of_stream(replies, replies.len()) is None
                    &&& queues_of(final(pending)@) == occupied(
                        after(before, replies, replies.len()),
                    )
                    &&& writes_of(settled.0.written@) == writes(before, replies, replies.len())
                    &&& group::slots_of(settled.0.moved@) == moved(replies, replies.len())
                },
            }
        }),
{
    let found = find_failures(answers);
    if let Some(i) = found.end {
        return (Settled { written: Vec::new(), moved: found.moved }, Some(i));
    }
    let ghost replies = replies_of(answers@);
    let ghost before = queues_of(pending@);
    let mut written: Vec<(String, i32, i64)> = Vec::new();
    let mut i: usize = 0;
    proof {
        assert(queues_of(pending@) =~= after(before, replies, 0)) by {
            assert forall|slot: (Seq<char>, i32)| before.dom().contains(slot) implies
                #[trigger] before[slot] == without_first(before[slot], 0) by {
                assert(before[slot].skip(0) =~= before[slot]);
            }
        }
        assert(writes_of(written@) =~= Seq::empty());
    }
    while i < answers.len()
        invariant
            i <= answers@.len(),
            replies == replies_of(answers@),
            pending.well_formed(),
            found.failed_at.well_formed(),
            failures_known(found.failed_at@, replies, replies.len()),
            queues_of(pending@) == after(before, replies, i as nat),
            writes_of(written@) == writes(before, replies, i as nat),
        decreases answers@.len() - i,
    {
        let answer = &answers[i];
        let topic = answer.slot.topic.as_str();
        let partition: i32 = answer.slot.partition;
        let ghost slot = answer.slot@;
        let ghost taken = queues_of(pending@);
        let ghost earlier = written@;
        assert(replies[i as int] == answer@);
        let leading = match found.failed_at.get(topic, partition) {
            Some(first) => answer.round < *first,
            None => true,
        };
        assert(leading == leads(replies, i as int)) by {
            assert(found.failed_at@.dom().contains(slot) == (failure(
                replies,
                slot,
                replies.len(),
            ) is Some));
        }
        if leading {
            if let Some(mut queue) = pending.remove(topic, partition) {
                let ghost held = queue@;
                assert(taken.dom().contains(slot) && taken[slot] == held);
                let front = queue.pop_front();
                let some = front.is_some();
                pending.insert(topic, partition, queue);
                if some {
                    let offset: i64 = reported_offset(answers, &answer.slot, answer.round);
                    written.push((topic.to_owned(), partition, offset));
                    assert(writes_of(written@) =~= writes_of(earlier).push(
                        (slot.0, slot.1, offset),
                    ));
                }
                proof {
                    lemma_taken(before, replies, i as nat, taken, queues_of(pending@), slot);
                }
            } else {
                proof {
                    assert(!taken.dom().contains(slot));
                    assert(!before.dom().contains(slot));
                    lemma_untouched(before, replies, i as nat);
                    assert(queues_of(pending@) =~= taken);
                }
            }
        } else {
            proof {
                lemma_untouched(before, replies, i as nat);
            }
        }
        i = i + 1;
    }
    let ghost emptied = queues_of(pending@);
    drop_empty(pending);
    assert(emptied == after(before, replies, replies.len()));
    (Settled { written, moved: found.moved }, None)
}

/// A reply outside a leading run, or for a partition without a queue, takes nothing.
proof fn lemma_untouched<T>(
    queues: Map<(Seq<char>, i32), Seq<T>>,
    replies: Seq<Reply>,
    i: nat,
)
    requires
        i < replies.len(),
        !leads(replies, i as int) || !queues.dom().contains(replies[i as int].slot),
    ensures
        after(queues, replies, i + 1) == after(queues, replies, i),
        writes(queues, replies, i + 1) == writes(queues, replies, i),
{
    assert(after(queues, replies, i + 1) =~= after(queues, replies, i));
}

/// A reply of a leading run takes the first batch of its queue.
proof fn lemma_taken<T>(
    queues: Map<(Seq<char>, i32), Seq<T>>,
    replies: Seq<Reply>,
    i: nat,
    taken: Map<(Seq<char>, i32), Seq<T>>,
    now: Map<(Seq<char>, i32), Seq<T>>,
    slot: (Seq<char>, i32),
)
    requires
        i < replies.len(),
        replies[i as int].slot == slot,
        leads(replies, i as int),
        taken == after(queues, replies, i),
        taken.dom().contains(slot),
        now.dom() == taken.dom(),
        now[slot] == if taken[slot].len() > 0 {
            taken[slot].skip(1)
        } else {
            taken[slot]
        },
        forall|other: (Seq<char>, i32)|
            other != slot && taken.dom().contains(other) ==> #[trigger] now[other] == taken[other],
    ensures
        now == after(queues, replies, i + 1),
        taken[slot].len() > 0 <==> led(replies, slot, i) < queue_of(queues, slot).len(),
{
    let n = led(replies, slot, i);
    assert(led(replies, slot, i + 1) == n + 1);
    if n < queues[slot].len() {
        assert(taken[slot] == queues[slot].skip(n as int));
        assert(now[slot] =~= without_first(queues[slot], n + 1));
    }
    assert forall|other: (Seq<char>, i32)| taken.dom().contains(other) implies #[trigger] now[other]
        == after(queues, replies, i + 1)[other] by {
        if other != slot {
            assert(led(replies, other, i + 1) == led(replies, other, i));
        }
    }
    assert(now =~= after(queues, replies, i + 1));
}

/// The offset that a partition reported for a round, -1 if it reported none. The last
/// report counts.
fn reported_offset(answers: &[Answer], slot: &TopicPartition, round: usize) -> (offset: i64)
    ensures
        offset == offset_at(replies_of(answers@), slot@, round, answers@.len()),
{
    let ghost replies = replies_of(answers@);
    let mut offset: i64 = -1;
    let mut i: usize = 0;
    while i < answers.len()
        invariant
            i <= answers@.len(),
            replies == replies_of(answers@),
            offset == offset_at(replies, slot@, round, i as nat),
        decreases answers@.len() - i,
    {
        assert(replies[i as int] == answers@[i as int]@);
        if answers[i].code == 0 && answers[i].round == round && answers[i].slot.is(slot) {
            offset = answers[i].base_offset;
        }
        i = i + 1;
    }
    offset
}

/// Forgets the queues that hold nothing.
pub fn drop_empty<T>(pending: &mut SlotMap<VecDeque<T>>)
    requires
        old(pending).well_formed(),
    ensures
        final(pending).well_formed(),
        queues_of(final(pending)@) == occupied(queues_of(old(pending)@)),
{
    let ghost before = pending@;
    let entries = pending.entries();
    let mut empty: Vec<TopicPartition> = Vec::new();
    let mut i: usize = 0;
    while i < entries.len()
        invariant
            i <= entries@.len(),
            pending.well_formed(),
            pending@ == before,
            before == slots::as_map(entries@),
            slots::distinct_keys(entries@),
            forall|k: int|
                0 <= k < i && (#[trigger] entries@[k]).1@.len() == 0 ==> listed(
                    empty@,
                    entries@[k].0@,
                ),
            forall|k: int|
                0 <= k < empty@.len() ==> before.dom().contains((#[trigger] empty@[k])@)
                    && before[empty@[k]@]@.len() == 0,
        decreases entries@.len() - i,
    {
        proof {
            slots::lemma_at(entries@, i as int);
        }
        let ghost list = empty@;
        if entries[i].1.len() == 0 {
            empty.push(entries[i].0.clone());
            assert(empty@[list.len() as int]@ == entries@[i as int].0@);
        }
        proof {
            assert forall|slot: (Seq<char>, i32)| listed(list, slot) implies listed(empty@, slot) by {
                let k = choose|k: int| 0 <= k < list.len() && (#[trigger] list[k])@ == slot;
                assert(empty@[k]@ == slot);
            }
        }
        i = i + 1;
    }
    proof {
        assert forall|slot: (Seq<char>, i32)|
            before.dom().contains(slot) && before[slot]@.len() == 0 implies #[trigger] listed(
            empty@,
            slot,
        ) by {
            let k = slots::key_at(entries@, slot);
            assert(slots::has_key(entries@, slot));
            assert(entries@[k].0@ == slot);
            slots::lemma_at(entries@, k);
        }
    }
    let mut j: usize = 0;
    while j < empty.len()
        invariant
            j <= empty@.len(),
            pending.well_formed(),
            forall|k: int|
                0 <= k < empty@.len() ==> before.dom().contains((#[trigger] empty@[k])@)
                    && before[empty@[k]@]@.len() == 0,
            forall|slot: (Seq<char>, i32)|
                #![trigger pending@.dom().contains(slot)]
                pending@.dom().contains(slot) <==> before.dom().contains(slot) && !listed(
                    empty@.take(j as int),
                    slot,
                ),
            forall|slot: (Seq<char>, i32)|
                pending@.dom().contains(slot) ==> #[trigger] pending@[slot] == before[slot],
        decreases empty@.len() - j,
    {
        let ghost now = pending@;
        pending.remove(empty[j].topic.as_str(), empty[j].partition);
        proof {
            let gone = empty@[j as int]@;
            let done = empty@.take(j as int);
            let next = empty@.take(j + 1);
            assert(next =~= done.push(empty@[j as int]));
            assert forall|slot: (Seq<char>, i32)| #[trigger] pending@.dom().contains(slot)
                == (before.dom().contains(slot) && !listed(next, slot)) by {
                assert(now.dom().contains(slot) == (before.dom().contains(slot) && !listed(
                    done,
                    slot,
                )));
                if listed(done, slot) {
                    let k = choose|k: int| 0 <= k < done.len() && (#[trigger] done[k])@ == slot;
                    assert(next[k]@ == slot);
                }
                if listed(next, slot) && slot != gone {
                    let k = choose|k: int| 0 <= k < next.len() && (#[trigger] next[k])@ == slot;
                    assert(done[k]@ == slot);
                }
                assert(next[j as int]@ == gone);
            }
        }
        j = j + 1;
    }
    proof {
        assert(empty@.take(empty@.len() as int) =~= empty@);
        assert(queues_of(pending@) =~= occupied(queues_of(before))) by {
            assert forall|slot: (Seq<char>, i32)| #[trigger] pending@.dom().contains(slot) == (
            before.dom().contains(slot) && before[slot]@.len() > 0) by {
                if listed(empty@, slot) {
                    let k = choose|k: int| 0 <= k < empty@.len() && (#[trigger] empty@[k])@ == slot;
                }
            }
        }
    }
}

/// Whether a partition is in a list.
spec fn listed(list: Seq<TopicPartition>, slot: (Seq<char>, i32)) -> bool {
    exists|k: int| 0 <= k < list.len() && (#[trigger] list[k])@ == slot
}

/// Whether a write comes before another: by topic, then partition, then offset.
pub open spec fn write_before(a: (Seq<char>, i32, i64), b: (Seq<char>, i32, i64)) -> bool {
    slots::slot_before((a.0, a.1), (b.0, b.1)) || (a.0 == b.0 && a.1 == b.1 && a.2 < b.2)
}

/// Whether writes are in order.
pub open spec fn in_write_order(list: Seq<(Seq<char>, i32, i64)>) -> bool {
    forall|i: int, j: int|
        0 <= i < j < list.len() ==> !write_before(#[trigger] list[j], #[trigger] list[i])
}

proof fn lemma_writes_ordered(a: (Seq<char>, i32, i64), b: (Seq<char>, i32, i64))
    ensures
        !(write_before(a, b) && write_before(b, a)),
        write_before(a, b) || write_before(b, a) || a == b,
{
    slots::lemma_slots_ordered((a.0, a.1), (b.0, b.1));
}

/// An order without ties is transitive across "not after".
proof fn lemma_not_after(
    a: (Seq<char>, i32, i64),
    b: (Seq<char>, i32, i64),
    c: (Seq<char>, i32, i64),
)
    requires
        !write_before(b, a),
        !write_before(c, b),
    ensures
        !write_before(c, a),
{
    lemma_writes_ordered(a, b);
    lemma_writes_ordered(b, c);
    lemma_writes_ordered(a, c);
    if write_before(c, a) && a != b && b != c {
        let (x, y, z) = ((a.0, a.1), (b.0, b.1), (c.0, c.1));
        slots::lemma_slots_ordered(x, y);
        slots::lemma_slots_ordered(y, z);
        slots::lemma_slots_ordered(x, z);
        if slots::slot_before(x, y) && slots::slot_before(y, z) {
            slots::lemma_slots_transitive(x, y, z);
        }
    }
}

fn is_write_before(a: &(String, i32, i64), b: &(String, i32, i64)) -> (yes: bool)
    ensures
        yes == write_before((a.0@, a.1, a.2), (b.0@, b.1, b.2)),
{
    if names::is_before(a.0.as_str(), b.0.as_str()) {
        return true;
    }
    if !names::same(a.0.as_str(), b.0.as_str()) {
        return false;
    }
    proof {
        names::law_names_are_ordered(a.0@, b.0@);
    }
    a.1 < b.1 || (a.1 == b.1 && a.2 < b.2)
}

/// Puts writes in order.
pub fn sorted(written: Vec<(String, i32, i64)>) -> (list: Vec<(String, i32, i64)>)
    ensures
        in_write_order(writes_of(list@)),
        writes_of(list@).to_multiset() == writes_of(written@).to_multiset(),
{
    broadcast use vstd::seq_lib::group_to_multiset_ensures;

    let ghost all = written@;
    let mut list: Vec<(String, i32, i64)> = Vec::new();
    assert(writes_of(list@) =~= writes_of(all.take(0)));
    for write in it: written
        invariant
            it.seq() == all,
            in_write_order(writes_of(list@)),
            writes_of(list@).to_multiset() == writes_of(
                all.take(it.index() as int),
            ).to_multiset(),
    {
        let ghost i = it.index() as int;
        let ghost before = list@;
        let ghost new = (write.0@, write.1, write.2);
        let mut at: usize = list.len();
        while at > 0 && is_write_before(&write, &list[at - 1])
            invariant
                list@ == before,
                at <= list@.len(),
                new == (write.0@, write.1, write.2),
                forall|k: int|
                    at <= k < list@.len() ==> write_before(new, #[trigger] writes_of(before)[k]),
            decreases at,
        {
            at = at - 1;
        }
        list.insert(at, write);
        proof {
            let old_view = writes_of(before);
            let view = writes_of(list@);
            assert(view =~= old_view.insert(at as int, new));
            assert(writes_of(all.take(i + 1)) =~= writes_of(all.take(i)).push(new));
            vstd::seq_lib::to_multiset_insert(old_view, at as int, new);
            vstd::seq_lib::to_multiset_build(writes_of(all.take(i)), new);
            assert forall|a: int, b: int| 0 <= a < b < view.len() implies !write_before(
                #[trigger] view[b],
                #[trigger] view[a],
            ) by {
                if b == at {
                    assert(view[a] == old_view[a]);
                    assert(!write_before(new, old_view[at - 1]));
                    if a < at - 1 {
                        assert(!write_before(old_view[at - 1], old_view[a]));
                        lemma_not_after(old_view[a], old_view[at - 1], new);
                    }
                } else if a == at {
                    assert(view[b] == old_view[b - 1]);
                    lemma_writes_ordered(new, old_view[b - 1]);
                } else {
                    let x = if a < at {
                        a
                    } else {
                        a - 1
                    };
                    let y = if b < at {
                        b
                    } else {
                        b - 1
                    };
                    assert(view[a] == old_view[x] && view[b] == old_view[y]);
                }
            }
        }
    }
    assert(all.take(all.len() as int) =~= all);
    list
}

/// A window takes batches off the front of a queue and nothing else: what stays is in
/// its order, and nothing is skipped.
pub proof fn law_only_the_front_of_a_queue_leaves<T>(
    queues: Map<(Seq<char>, i32), Seq<T>>,
    replies: Seq<Reply>,
    slot: (Seq<char>, i32),
)
    requires
        queues.dom().contains(slot),
    ensures
        ({
            let left = queue_of(occupied(after(queues, replies, replies.len())), slot);
            let n = queues[slot].len() - left.len();
            &&& n >= 0
            &&& n <= led(replies, slot, replies.len())
            &&& queues[slot] == queues[slot].take(n) + left
        }),
{
    let n = led(replies, slot, replies.len());
    let left = queue_of(occupied(after(queues, replies, replies.len())), slot);
    assert(left =~= without_first(queues[slot], n));
    assert(queues[slot] =~= queues[slot].take(queues[slot].len() - left.len()) + left);
}

/// How many of the first `n` replies are a partition's.
pub open spec fn heard(replies: Seq<Reply>, slot: (Seq<char>, i32), n: nat) -> nat
    decreases n,
{
    if n == 0 {
        0
    } else {
        heard(replies, slot, (n - 1) as nat) + if replies[n - 1].slot == slot {
            1nat
        } else {
            0
        }
    }
}

/// Whether a partition answered once for each of its rounds, in order.
pub open spec fn one_per_round(replies: Seq<Reply>, slot: (Seq<char>, i32)) -> bool {
    forall|i: int|
        0 <= i < replies.len() && (#[trigger] replies[i]).slot == slot ==> replies[i].round
            == heard(replies, slot, i as nat)
}

proof fn lemma_heard_grows(replies: Seq<Reply>, slot: (Seq<char>, i32), n: nat, m: nat)
    requires
        n <= m,
    ensures
        heard(replies, slot, n) <= heard(replies, slot, m),
        n < m && replies[n as int].slot == slot ==> heard(replies, slot, n) < heard(
            replies,
            slot,
            m,
        ),
    decreases m,
{
    if n < m {
        lemma_heard_grows(replies, slot, n, (m - 1) as nat);
    }
}

proof fn lemma_led_is_heard(replies: Seq<Reply>, slot: (Seq<char>, i32), n: nat)
    requires
        n <= replies.len(),
        one_per_round(replies, slot),
    ensures
        led(replies, slot, n) == match failure(replies, slot, replies.len()) {
            Some(j) => if n <= j {
                heard(replies, slot, n)
            } else {
                heard(replies, slot, j as nat)
            },
            None => heard(replies, slot, n),
        },
    decreases n,
{
    lemma_failure_bound(replies, slot, replies.len());
    if n > 0 {
        lemma_led_is_heard(replies, slot, (n - 1) as nat);
        if replies[n - 1].slot == slot {
            if let Some(j) = failure(replies, slot, replies.len()) {
                assert(replies[j].round == heard(replies, slot, j as nat));
                if n - 1 < j {
                    lemma_heard_grows(replies, slot, (n - 1) as nat, j as nat);
                } else {
                    lemma_heard_grows(replies, slot, j as nat, (n - 1) as nat);
                }
            }
        }
    }
}

/// Of a partition that answered once for each round, exactly the rounds before its
/// first failure leave the queue: all of them, where none failed.
pub proof fn law_exactly_the_rounds_before_the_first_failure_leave(
    replies: Seq<Reply>,
    slot: (Seq<char>, i32),
)
    requires
        one_per_round(replies, slot),
    ensures
        led(replies, slot, replies.len()) == match failure(replies, slot, replies.len()) {
            Some(j) => replies[j].round as nat,
            None => heard(replies, slot, replies.len()),
        },
{
    lemma_failure_bound(replies, slot, replies.len());
    lemma_led_is_heard(replies, slot, replies.len());
}

/// Whether two windows differ only in what was answered behind a failure of the same
/// partition.
pub open spec fn differ_behind_failures(a: Seq<Reply>, b: Seq<Reply>) -> bool {
    &&& a.len() == b.len()
    &&& forall|i: int, j: int|
        0 <= i < j < a.len() ==> (#[trigger] a[i]).round <= (#[trigger] a[j]).round
    &&& forall|i: int|
        0 <= i < a.len() ==> {
            &&& #[trigger] a[i].slot == b[i].slot
            &&& a[i].round == b[i].round
            &&& a[i] == b[i] || failure(a, a[i].slot, i as nat) is Some
        }
}

proof fn lemma_same_failures(
    a: Seq<Reply>,
    b: Seq<Reply>,
    slot: (Seq<char>, i32),
    n: nat,
)
    requires
        differ_behind_failures(a, b),
        n <= a.len(),
    ensures
        failure(a, slot, n) == failure(b, slot, n),
    decreases n,
{
    if n > 0 {
        lemma_same_failures(a, b, slot, (n - 1) as nat);
        assert(a[n - 1].slot == b[n - 1].slot);
    }
}

proof fn lemma_failure_grows(replies: Seq<Reply>, slot: (Seq<char>, i32), n: nat, m: nat)
    requires
        n <= m,
        failure(replies, slot, n) is Some,
    ensures
        failure(replies, slot, m) == failure(replies, slot, n),
    decreases m,
{
    if n < m {
        lemma_failure_grows(replies, slot, n, (m - 1) as nat);
    }
}

proof fn lemma_same_leads(a: Seq<Reply>, b: Seq<Reply>, i: int)
    requires
        differ_behind_failures(a, b),
        0 <= i < a.len(),
    ensures
        leads(a, i) == leads(b, i),
        leads(a, i) ==> a[i] == b[i],
        is_first_failure(a, i) == is_first_failure(b, i),
        is_first_failure(a, i) ==> a[i] == b[i],
{
    let slot = a[i].slot;
    assert(b[i].slot == slot);
    lemma_same_failures(a, b, slot, a.len());
    lemma_same_failures(a, b, slot, i as nat);
    if let Some(j) = failure(a, slot, a.len()) {
        lemma_failure_bound(a, slot, a.len());
        assert(a[j].round == b[j].round);
    }
    if failure(a, slot, i as nat) is Some {
        lemma_failure_bound(a, slot, i as nat);
        lemma_failure_grows(a, slot, i as nat, a.len());
        let j = failure(a, slot, i as nat).unwrap();
        assert(a[j].round <= a[i].round);
    }
}

proof fn lemma_same_offsets(a: Seq<Reply>, b: Seq<Reply>, i: int, n: nat)
    requires
        differ_behind_failures(a, b),
        0 <= i < a.len(),
        leads(a, i),
        n <= a.len(),
    ensures
        offset_at(a, a[i].slot, a[i].round, n) == offset_at(b, a[i].slot, a[i].round, n),
    decreases n,
{
    if n > 0 {
        lemma_same_offsets(a, b, i, (n - 1) as nat);
        let k = n - 1;
        assert(a[k].slot == b[k].slot);
        if a[k].slot == a[i].slot && a[k].round == a[i].round {
            assert(leads(a, k));
            lemma_same_leads(a, b, k);
        }
    }
}

proof fn lemma_same_settlement<T>(
    queues: Map<(Seq<char>, i32), Seq<T>>,
    a: Seq<Reply>,
    b: Seq<Reply>,
    n: nat,
)
    requires
        differ_behind_failures(a, b),
        n <= a.len(),
    ensures
        end_of_stream(a, n) == end_of_stream(b, n),
        moved(a, n) == moved(b, n),
        forall|slot: (Seq<char>, i32)| #[trigger] led(a, slot, n) == led(b, slot, n),
        writes(queues, a, n) == writes(queues, b, n),
    decreases n,
{
    if n > 0 {
        lemma_same_settlement(queues, a, b, (n - 1) as nat);
        lemma_same_leads(a, b, n - 1);
        assert(a[n - 1].slot == b[n - 1].slot);
        if leads(a, n - 1) {
            lemma_same_offsets(a, b, n - 1, a.len());
        }
        assert forall|slot: (Seq<char>, i32)| #[trigger] led(a, slot, n) == led(b, slot, n) by {
            assert(led(a, slot, (n - 1) as nat) == led(b, slot, (n - 1) as nat));
        }
        assert(led(a, a[n - 1].slot, (n - 1) as nat) == led(b, a[n - 1].slot, (n - 1) as nat));
    }
}

/// Whatever the rounds behind a failure answer, even something that would otherwise
/// end the stream, changes nothing: they are void.
pub proof fn law_rounds_behind_a_failure_are_void<T>(
    queues: Map<(Seq<char>, i32), Seq<T>>,
    a: Seq<Reply>,
    b: Seq<Reply>,
)
    requires
        differ_behind_failures(a, b),
    ensures
        end_of_stream(a, a.len()) == end_of_stream(b, b.len()),
        moved(a, a.len()) == moved(b, b.len()),
        after(queues, a, a.len()) == after(queues, b, b.len()),
        writes(queues, a, a.len()) == writes(queues, b, b.len()),
{
    lemma_same_settlement(queues, a, b, a.len());
    assert(after(queues, a, a.len()) =~= after(queues, b, b.len()));
}

/// The queues that are left after `n` windows of a flush, and what was written until then.
pub open spec fn flushed<T>(
    queues: Map<(Seq<char>, i32), Seq<T>>,
    windows: Seq<Seq<Reply>>,
    n: nat,
) -> (Map<(Seq<char>, i32), Seq<T>>, Seq<(Seq<char>, i32, i64)>)
    decreases n,
{
    if n == 0 {
        (queues, Seq::empty())
    } else {
        let (left, written) = flushed(queues, windows, (n - 1) as nat);
        let replies = windows[n - 1];
        (
            occupied(after(left, replies, replies.len())),
            written + writes(left, replies, replies.len()),
        )
    }
}

/// How many of some writes went to a partition.
pub open spec fn written_to(written: Seq<(Seq<char>, i32, i64)>, slot: (Seq<char>, i32)) -> nat
    decreases written.len(),
{
    if written.len() == 0 {
        0
    } else {
        written_to(written.drop_last(), slot) + (if (written.last().0, written.last().1) == slot {
            1nat
        } else {
            0
        })
    }
}

proof fn lemma_written_to_both(
    one: Seq<(Seq<char>, i32, i64)>,
    two: Seq<(Seq<char>, i32, i64)>,
    slot: (Seq<char>, i32),
)
    ensures
        written_to(one + two, slot) == written_to(one, slot) + written_to(two, slot),
    decreases two.len(),
{
    if two.len() == 0 {
        assert(one + two =~= one);
    } else {
        assert((one + two).drop_last() =~= one + two.drop_last());
        lemma_written_to_both(one, two.drop_last(), slot);
    }
}

/// A window writes as many batches of a partition as its leading run covers.
proof fn lemma_window_writes<T>(
    queues: Map<(Seq<char>, i32), Seq<T>>,
    replies: Seq<Reply>,
    slot: (Seq<char>, i32),
    n: nat,
)
    requires
        n <= replies.len(),
    ensures
        ({
            let length = queue_of(queues, slot).len();
            let count = led(replies, slot, n);
            written_to(writes(queues, replies, n), slot) == if count < length {
                count
            } else {
                length
            }
        }),
    decreases n,
{
    if n > 0 {
        lemma_window_writes(queues, replies, slot, (n - 1) as nat);
        let earlier = writes(queues, replies, (n - 1) as nat);
        let now = writes(queues, replies, n);
        if now.len() > earlier.len() {
            assert(now.drop_last() =~= earlier);
        }
    }
}

/// Over the windows of a flush nothing is lost, repeated or reordered: what was written of
/// a partition's batches, followed by what is still queued, is what was queued.
pub proof fn law_a_flush_writes_queues_in_order<T>(
    queues: Map<(Seq<char>, i32), Seq<T>>,
    windows: Seq<Seq<Reply>>,
    n: nat,
    slot: (Seq<char>, i32),
)
    requires
        n <= windows.len(),
    ensures
        ({
            let (left, written) = flushed(queues, windows, n);
            let queued = queue_of(queues, slot);
            let count = written_to(written, slot);
            &&& count <= queued.len()
            &&& queued.take(count as int) + queue_of(left, slot) == queued
            &&& count > 0 ==> queues.dom().contains(slot)
        }),
    decreases n,
{
    let queued = queue_of(queues, slot);
    if n == 0 {
        assert(queued.take(0) + queued =~= queued);
    } else {
        law_a_flush_writes_queues_in_order(queues, windows, (n - 1) as nat, slot);
        let (before, earlier) = flushed(queues, windows, (n - 1) as nat);
        let replies = windows[n - 1];
        let more = writes(before, replies, replies.len());
        lemma_window_writes(before, replies, slot, replies.len());
        lemma_written_to_both(earlier, more, slot);
        let (left, written) = flushed(queues, windows, n);
        let was = queue_of(before, slot);
        let now = queue_of(left, slot);
        assert(now =~= was.skip(written_to(more, slot) as int));
        assert(was =~= queued.skip(written_to(earlier, slot) as int));
        assert(queued.take(written_to(written, slot) as int) + now =~= queued);
    }
}

/// Writes to the first `n` of some partitions.
spec fn written_among(
    written: Seq<(Seq<char>, i32, i64)>,
    keys: Seq<(Seq<char>, i32)>,
    n: nat,
) -> nat
    decreases n,
{
    if n == 0 {
        0
    } else {
        written_among(written, keys, (n - 1) as nat) + written_to(written, keys[n - 1])
    }
}

proof fn lemma_nothing_among(keys: Seq<(Seq<char>, i32)>, n: nat)
    ensures
        written_among(Seq::empty(), keys, n) == 0,
    decreases n,
{
    if n > 0 {
        lemma_nothing_among(keys, (n - 1) as nat);
    }
}

proof fn lemma_among_step(
    written: Seq<(Seq<char>, i32, i64)>,
    keys: Seq<(Seq<char>, i32)>,
    at: int,
    n: nat,
)
    requires
        written.len() > 0,
        keys.no_duplicates(),
        n <= keys.len(),
        0 <= at < keys.len(),
        keys[at] == (written.last().0, written.last().1),
    ensures
        written_among(written, keys, n) == written_among(written.drop_last(), keys, n) + (if at
            < n {
            1nat
        } else {
            0
        }),
    decreases n,
{
    if n > 0 {
        lemma_among_step(written, keys, at, (n - 1) as nat);
        if at != n - 1 {
            assert(keys[at] != keys[n - 1]);
        }
    }
}

/// Writes that all went to some partitions are as many as went to each together.
proof fn lemma_written_among(written: Seq<(Seq<char>, i32, i64)>, keys: Seq<(Seq<char>, i32)>)
    requires
        keys.no_duplicates(),
        forall|slot: (Seq<char>, i32)|
            #[trigger] written_to(written, slot) > 0 ==> keys.contains(slot),
    ensures
        written_among(written, keys, keys.len()) == written.len(),
    decreases written.len(),
{
    if written.len() == 0 {
        assert(written =~= Seq::empty());
        lemma_nothing_among(keys, keys.len());
    } else {
        let slot = (written.last().0, written.last().1);
        assert(written_to(written, slot) > 0);
        let at = choose|at: int| 0 <= at < keys.len() && keys[at] == slot;
        let less = written.drop_last();
        assert forall|other: (Seq<char>, i32)| #[trigger]
            written_to(less, other) > 0 implies keys.contains(other) by {
            assert(written_to(written, other) > 0);
        }
        lemma_written_among(less, keys);
        lemma_among_step(written, keys, at, keys.len());
    }
}

/// How many batches the queues of the first `n` of some partitions hold.
pub open spec fn queued_among<T>(
    queues: Map<(Seq<char>, i32), Seq<T>>,
    keys: Seq<(Seq<char>, i32)>,
    n: nat,
) -> nat
    decreases n,
{
    if n == 0 {
        0
    } else {
        queued_among(queues, keys, (n - 1) as nat) + queue_of(queues, keys[n - 1]).len()
    }
}

proof fn lemma_all_written<T>(
    queues: Map<(Seq<char>, i32), Seq<T>>,
    windows: Seq<Seq<Reply>>,
    keys: Seq<(Seq<char>, i32)>,
    n: nat,
)
    requires
        n <= keys.len(),
        flushed(queues, windows, windows.len()).0 == Map::<(Seq<char>, i32), Seq<T>>::empty(),
    ensures
        written_among(flushed(queues, windows, windows.len()).1, keys, n) == queued_among(
            queues,
            keys,
            n,
        ),
    decreases n,
{
    if n > 0 {
        lemma_all_written(queues, windows, keys, (n - 1) as nat);
        law_a_flush_writes_queues_in_order(queues, windows, windows.len(), keys[n - 1]);
    }
}

/// What went to a partition does not depend on the order of the list.
proof fn lemma_written_to_is_a_count(
    written: Seq<(Seq<char>, i32, i64)>,
    slot: (Seq<char>, i32),
)
    ensures
        written_to(written, slot) == written.to_multiset().filter(
            |w: (Seq<char>, i32, i64)| (w.0, w.1) == slot,
        ).len(),
    decreases written.len(),
{
    broadcast use vstd::seq_lib::group_to_multiset_ensures;
    broadcast use vstd::multiset::group_multiset_axioms;

    let mine = |w: (Seq<char>, i32, i64)| (w.0, w.1) == slot;
    if written.len() == 0 {
        assert(written.to_multiset().filter(mine) =~= vstd::multiset::Multiset::empty());
    } else {
        let less = written.drop_last();
        let last = written.last();
        lemma_written_to_is_a_count(less, slot);
        assert(written =~= less.push(last));
        assert(written.to_multiset() =~= less.to_multiset().insert(last));
        let before = less.to_multiset().filter(mine);
        let after = written.to_multiset().filter(mine);
        if mine(last) {
            assert(after =~= before.insert(last));
        } else {
            assert(after =~= before);
        }
    }
}

/// A flush that ends with nothing queued has written every batch that was queued, once:
/// the list that it hands out, in whatever order, holds one entry for each, and as many of
/// a partition as its queue held.
pub proof fn law_a_flush_writes_every_batch_once<T>(
    queues: Map<(Seq<char>, i32), Seq<T>>,
    windows: Seq<Seq<Reply>>,
    told: Seq<(Seq<char>, i32, i64)>,
)
    requires
        slots::key_list(slots::keys_of(queues.dom()), queues.dom()),
        flushed(queues, windows, windows.len()).0 == Map::<(Seq<char>, i32), Seq<T>>::empty(),
        told.to_multiset() == flushed(queues, windows, windows.len()).1.to_multiset(),
    ensures
        ({
            let keys = slots::keys_of(queues.dom());
            told.len() == queued_among(queues, keys, keys.len())
        }),
        forall|slot: (Seq<char>, i32)| #[trigger]
            written_to(told, slot) == queue_of(queues, slot).len(),
{
    broadcast use vstd::seq_lib::group_to_multiset_ensures;

    let keys = slots::keys_of(queues.dom());
    let written = flushed(queues, windows, windows.len()).1;
    slots::lemma_keys_differ(keys, queues.dom());
    assert forall|slot: (Seq<char>, i32)| #[trigger]
        written_to(written, slot) > 0 implies keys.contains(slot) by {
        law_a_flush_writes_queues_in_order(queues, windows, windows.len(), slot);
        assert(keys.contains(slot) <==> queues.dom().contains(slot));
    }
    lemma_written_among(written, keys);
    lemma_all_written(queues, windows, keys, keys.len());
    assert(told.len() == told.to_multiset().len());
    assert(written.len() == written.to_multiset().len());
    assert forall|slot: (Seq<char>, i32)| #[trigger]
        written_to(told, slot) == queue_of(queues, slot).len() by {
        law_a_flush_writes_queues_in_order(queues, windows, windows.len(), slot);
        lemma_written_to_is_a_count(told, slot);
        lemma_written_to_is_a_count(written, slot);
    }
}

/// The keys of a list that still have a queue, in their order.
proof fn lemma_keys_left(
    keys: Seq<(Seq<char>, i32)>,
    of: Set<(Seq<char>, i32)>,
    left: Set<(Seq<char>, i32)>,
)
    requires
        slots::key_list(keys, of),
    ensures
        slots::key_list(
            keys.filter(|key: (Seq<char>, i32)| left.contains(key)),
            of.intersect(left),
        ),
    decreases keys.len(),
{
    reveal(Seq::filter);
    let stays = |key: (Seq<char>, i32)| left.contains(key);
    let now = keys.filter(stays);
    if keys.len() == 0 {
        assert forall|key: (Seq<char>, i32)| #[trigger] now.contains(key) <==> of.intersect(
            left,
        ).contains(key) by {
            assert(keys.contains(key) <==> of.contains(key));
        }
    } else {
        let less = keys.drop_last();
        let last = keys.last();
        slots::lemma_key_list_shorter(keys, of);
        lemma_keys_left(less, of.remove(last), left);
        let earlier = less.filter(stays);
        assert(keys.contains(last));
        assert forall|i: int, j: int| 0 <= i < j < now.len() implies slots::slot_before(
            #[trigger] now[i],
            #[trigger] now[j],
        ) by {
            if j == earlier.len() {
                assert(earlier.contains(now[i]));
                assert(of.remove(last).contains(now[i]));
                assert(less.contains(now[i]));
                let k = choose|k: int| 0 <= k < less.len() && less[k] == now[i];
                assert(slots::slot_before(keys[k], keys[keys.len() - 1]));
            }
        }
        assert forall|key: (Seq<char>, i32)| #[trigger] now.contains(key) <==> of.intersect(
            left,
        ).contains(key) by {
            assert(earlier.contains(key) <==> of.remove(last).intersect(left).contains(key));
            if stays(last) {
                assert(now == earlier.push(last));
                if earlier.contains(key) {
                    let k = choose|k: int| 0 <= k < earlier.len() && earlier[k] == key;
                    assert(now[k] == key);
                }
                if key == last {
                    assert(now[earlier.len() as int] == key);
                }
                if now.contains(key) && key != last {
                    let k = choose|k: int| 0 <= k < now.len() && now[k] == key;
                    assert(earlier[k] == key);
                }
            }
        }
    }
}

proof fn lemma_queued_prefix<T>(
    queues: Map<(Seq<char>, i32), Seq<T>>,
    one: Seq<(Seq<char>, i32)>,
    other: Seq<(Seq<char>, i32)>,
    n: nat,
)
    requires
        n <= one.len(),
        n <= other.len(),
        forall|i: int| 0 <= i < n ==> one[i] == other[i],
    ensures
        queued_among(queues, one, n) == queued_among(queues, other, n),
    decreases n,
{
    if n > 0 {
        lemma_queued_prefix(queues, one, other, (n - 1) as nat);
    }
}

/// Partitions without a queue add nothing.
proof fn lemma_queued_left<T>(queues: Map<(Seq<char>, i32), Seq<T>>, keys: Seq<(Seq<char>, i32)>)
    ensures
        ({
            let now = keys.filter(|key: (Seq<char>, i32)| queues.dom().contains(key));
            queued_among(queues, now, now.len()) == queued_among(queues, keys, keys.len())
        }),
    decreases keys.len(),
{
    reveal(Seq::filter);
    if keys.len() > 0 {
        let stays = |key: (Seq<char>, i32)| queues.dom().contains(key);
        let less = keys.drop_last();
        lemma_queued_left(queues, less);
        lemma_queued_prefix(queues, less, keys, less.len());
        let earlier = less.filter(stays);
        if stays(keys.last()) {
            let now = earlier.push(keys.last());
            lemma_queued_prefix(queues, earlier, now, earlier.len());
        }
    }
}

proof fn lemma_taken_among<T>(
    queues: Map<(Seq<char>, i32), Seq<T>>,
    replies: Seq<Reply>,
    keys: Seq<(Seq<char>, i32)>,
    n: nat,
)
    requires
        n <= keys.len(),
    ensures
        ({
            let left = occupied(after(queues, replies, replies.len()));
            let written = writes(queues, replies, replies.len());
            written_among(written, keys, n) + queued_among(left, keys, n) == queued_among(
                queues,
                keys,
                n,
            )
        }),
    decreases n,
{
    if n > 0 {
        lemma_taken_among(queues, replies, keys, (n - 1) as nat);
        lemma_one_window(queues, replies, keys[n - 1]);
    }
}

/// One window of a flush, for one partition.
proof fn lemma_one_window<T>(
    queues: Map<(Seq<char>, i32), Seq<T>>,
    replies: Seq<Reply>,
    slot: (Seq<char>, i32),
)
    ensures
        ({
            let left = occupied(after(queues, replies, replies.len()));
            let count = written_to(writes(queues, replies, replies.len()), slot);
            &&& count + queue_of(left, slot).len() == queue_of(queues, slot).len()
            &&& count > 0 ==> queues.dom().contains(slot)
        }),
{
    let windows = seq![replies];
    let written = writes(queues, replies, replies.len());
    assert(windows[0] == replies);
    assert(flushed(queues, windows, 0).1 + written =~= written);
    reveal_with_fuel(flushed, 2);
    law_a_flush_writes_queues_in_order(queues, windows, 1, slot);
}

/// A window takes off the queues as many batches as it writes.
pub proof fn law_a_window_takes_what_it_writes<T>(
    queues: Map<(Seq<char>, i32), Seq<T>>,
    replies: Seq<Reply>,
)
    requires
        slots::key_list(slots::keys_of(queues.dom()), queues.dom()),
    ensures
        ({
            let left = occupied(after(queues, replies, replies.len()));
            let keys = slots::keys_of(queues.dom());
            let now = slots::keys_of(left.dom());
            &&& slots::key_list(now, left.dom())
            &&& queued_among(left, now, now.len()) + writes(queues, replies, replies.len()).len()
                == queued_among(queues, keys, keys.len())
        }),
{
    let left = occupied(after(queues, replies, replies.len()));
    let keys = slots::keys_of(queues.dom());
    let written = writes(queues, replies, replies.len());
    lemma_keys_left(keys, queues.dom(), left.dom());
    assert(queues.dom().intersect(left.dom()) =~= left.dom());
    let now = keys.filter(|key: (Seq<char>, i32)| left.dom().contains(key));
    slots::lemma_keys_are(now, left.dom());
    lemma_queued_left(left, keys);
    lemma_taken_among(queues, replies, keys, keys.len());
    slots::lemma_keys_differ(keys, queues.dom());
    assert forall|slot: (Seq<char>, i32)| #[trigger]
        written_to(written, slot) > 0 implies keys.contains(slot) by {
        lemma_one_window(queues, replies, slot);
        assert(keys.contains(slot) <==> queues.dom().contains(slot));
    }
    lemma_written_among(written, keys);
}

/// A partition's first failure is the first of its replies that has an error, and there is
/// none where none of them has.
pub proof fn law_the_first_failure_is_the_first(
    replies: Seq<Reply>,
    slot: (Seq<char>, i32),
    n: nat,
)
    requires
        n <= replies.len(),
    ensures
        failure(replies, slot, n) is None <==> forall|i: int|
            0 <= i < n && (#[trigger] replies[i]).slot == slot ==> replies[i].code == 0,
        forall|i: int|
            0 <= i < n && (#[trigger] replies[i]).slot == slot && replies[i].code != 0 && (forall|
                j: int,
            |
                0 <= j < i && (#[trigger] replies[j]).slot == slot ==> replies[j].code == 0)
                ==> failure(replies, slot, n) == Some(i),
    decreases n,
{
    if n > 0 {
        law_the_first_failure_is_the_first(replies, slot, (n - 1) as nat);
        assert(replies[n - 1] == replies[n - 1]);
    }
}

/// A stream goes on after a failure that is worth another try or a new leader, and ends
/// with any other: the first one in the window that is its partition's first.
pub proof fn law_a_stream_ends_with_what_nothing_mends(replies: Seq<Reply>, n: nat)
    requires
        n <= replies.len(),
    ensures
        !ends_the_stream(Disposition::Retry),
        !ends_the_stream(Disposition::RefreshMetadata),
        ends_the_stream(Disposition::Fatal),
        ends_the_stream(Disposition::FindCoordinator),
        end_of_stream(replies, n) is None <==> forall|i: int|
            0 <= i < n && (#[trigger] replies[i]).code != 0 && failure(
                replies,
                replies[i].slot,
                i as nat,
            ) is None ==> replies[i].disposition == Disposition::Retry || replies[i].disposition
                == Disposition::RefreshMetadata,
        end_of_stream(replies, n) matches Some(i) ==> {
            &&& 0 <= i < n
            &&& replies[i].code != 0
            &&& failure(replies, replies[i].slot, i as nat) is None
            &&& replies[i].disposition != Disposition::Retry
            &&& replies[i].disposition != Disposition::RefreshMetadata
            &&& end_of_stream(replies, i as nat) is None
        },
    decreases n,
{
    if n > 0 {
        law_a_stream_ends_with_what_nothing_mends(replies, (n - 1) as nat);
        assert(replies[n - 1] == replies[n - 1]);
    }
}

/// Exactly the partitions whose first failure says that their leader moved are looked for
/// again, in the order of those failures.
pub proof fn law_exactly_the_moved_partitions_are_looked_for(replies: Seq<Reply>, n: nat)
    requires
        n <= replies.len(),
    ensures
        moved(replies, n) == Seq::new(n, |i: int| i).filter(
            |i: int|
                replies[i].code != 0 && replies[i].disposition == Disposition::RefreshMetadata
                    && failure(replies, replies[i].slot, i as nat) is None,
        ).map_values(|i: int| replies[i].slot),
    decreases n,
{
    reveal(Seq::filter);
    let away = |i: int|
        replies[i].code != 0 && replies[i].disposition == Disposition::RefreshMetadata && failure(
            replies,
            replies[i].slot,
            i as nat,
        ) is None;
    let place = |i: int| replies[i].slot;
    let all = Seq::new(n, |i: int| i);
    if n > 0 {
        law_exactly_the_moved_partitions_are_looked_for(replies, (n - 1) as nat);
        let earlier = Seq::new((n - 1) as nat, |i: int| i);
        assert(all.drop_last() =~= earlier);
        assert(all.last() == n - 1);
        if away(n - 1) {
            assert(all.filter(away) == earlier.filter(away).push(n - 1));
            assert(all.filter(away).map_values(place) =~= earlier.filter(away).map_values(
                place,
            ).push(place(n - 1)));
        }
    }
    assert(moved(replies, n) =~= all.filter(away).map_values(place));
}

/// A reply is of its partition's leading run where its round came before that of the
/// partition's first failure, and always where none failed; a run is as long as it has
/// such replies.
pub proof fn law_a_leading_run_ends_at_the_first_failure(
    replies: Seq<Reply>,
    slot: (Seq<char>, i32),
    n: nat,
)
    requires
        n <= replies.len(),
    ensures
        forall|i: int|
            0 <= i < replies.len() ==> (#[trigger] leads(replies, i) <==> match failure(
                replies,
                replies[i].slot,
                replies.len(),
            ) {
                None => true,
                Some(j) => replies[i].round < replies[j].round,
            }),
        led(replies, slot, n) == Seq::new(n, |i: int| i).filter(
            |i: int| replies[i].slot == slot && leads(replies, i),
        ).len(),
    decreases n,
{
    reveal(Seq::filter);
    let own = |i: int| replies[i].slot == slot && leads(replies, i);
    let all = Seq::new(n, |i: int| i);
    if n > 0 {
        law_a_leading_run_ends_at_the_first_failure(replies, slot, (n - 1) as nat);
        assert(all.drop_last() =~= Seq::new((n - 1) as nat, |i: int| i));
        assert(all.last() == n - 1);
    } else {
        assert(all.filter(own).len() == 0);
    }
}

/// A batch that was written is told with the offset that its own reply gave: of a partition
/// that answered once for a round, that answer's.
pub proof fn law_a_write_is_told_with_its_own_offset(
    replies: Seq<Reply>,
    i: int,
    n: nat,
)
    requires
        0 <= i < n <= replies.len(),
        replies[i].code == 0,
        forall|j: int|
            i < j < n ==> (#[trigger] replies[j]).slot != replies[i].slot || replies[j].round
                != replies[i].round || replies[j].code != 0,
    ensures
        offset_at(replies, replies[i].slot, replies[i].round, n) == replies[i].base_offset,
    decreases n,
{
    if i < n - 1 {
        law_a_write_is_told_with_its_own_offset(replies, i, (n - 1) as nat);
    }
}

/// What is told as written: in the order of the replies, each reply of a leading run that a
/// queued batch is left for, under its own topic and partition.
pub proof fn law_exactly_the_leading_runs_are_written<T>(
    queues: Map<(Seq<char>, i32), Seq<T>>,
    replies: Seq<Reply>,
    n: nat,
)
    requires
        n <= replies.len(),
    ensures
        writes(queues, replies, n) == Seq::new(n, |i: int| i).filter(
            |i: int|
                leads(replies, i) && queues.dom().contains(replies[i].slot) && led(
                    replies,
                    replies[i].slot,
                    i as nat,
                ) < queues[replies[i].slot].len(),
        ).map_values(
            |i: int|
                (
                    replies[i].slot.0,
                    replies[i].slot.1,
                    offset_at(replies, replies[i].slot, replies[i].round, replies.len()),
                ),
        ),
    decreases n,
{
    reveal(Seq::filter);
    let counts = |i: int|
        leads(replies, i) && queues.dom().contains(replies[i].slot) && led(
            replies,
            replies[i].slot,
            i as nat,
        ) < queues[replies[i].slot].len();
    let entry = |i: int|
        (
            replies[i].slot.0,
            replies[i].slot.1,
            offset_at(replies, replies[i].slot, replies[i].round, replies.len()),
        );
    let all = Seq::new(n, |i: int| i);
    if n > 0 {
        law_exactly_the_leading_runs_are_written(queues, replies, (n - 1) as nat);
        let earlier = Seq::new((n - 1) as nat, |i: int| i);
        assert(all.drop_last() =~= earlier);
        assert(all.last() == n - 1);
        if counts(n - 1) {
            assert(all.filter(counts) == earlier.filter(counts).push(n - 1));
            assert(all.filter(counts).map_values(entry) =~= earlier.filter(counts).map_values(
                entry,
            ).push(entry(n - 1)));
        }
    }
    assert(writes(queues, replies, n) =~= all.filter(counts).map_values(entry));
}

/// What was written is told by topic and partition, and of a partition in the order of its
/// offsets.
pub proof fn law_writes_are_told_in_order(a: (Seq<char>, i32, i64), b: (Seq<char>, i32, i64))
    ensures
        names::before(a.0, b.0) ==> write_before(a, b),
        a.0 == b.0 && a.1 < b.1 ==> write_before(a, b),
        a.0 == b.0 && a.1 == b.1 ==> (write_before(a, b) <==> a.2 < b.2),
        !(write_before(a, b) && write_before(b, a)),
{
    names::law_names_are_ordered(a.0, b.0);
}

} // verus!
