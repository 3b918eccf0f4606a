//! The assignment strategies.
//!
//! `range` and `roundrobin` are exactly the strategies of those names that other
//! clients run, since members of a mixed group must reach the same answer.
use crate::group;
use crate::group::{Assignment, Member, PartitionCounts, Subscription, TopicPartition};
use crate::names;
use crate::sticky;
use vstd::prelude::*;

verus! {

/// How partitions are shared out.
pub trait Assignor {
    /// The protocol name.
    spec fn protocol(&self) -> Seq<char>;

    /// What every member gets.
    spec fn decides(&self, members: Seq<Member>, topics: Seq<(Seq<char>, i32)>) -> Map<
        Seq<char>,
        Seq<(Seq<char>, i32)>,
    >;

    /// The name by which members negotiate this strategy.
    fn name(&self) -> (name: &'static str)
        ensures
            name@ == self.protocol(),
    ;

    /// Divides the topics' partitions among the members.
    ///
    /// Every member appears in the result, with an empty list if it got nothing: a
    /// member that is absent cannot tell "assigned nothing" from "forgotten".
    fn assign(
        &self,
        members: &[Subscription],
        partitions_per_topic: &PartitionCounts,
    ) -> (assignment: Assignment)
        requires
            partitions_per_topic.well_formed(),
        ensures
            assignment.well_formed(),
            assignment@ == self.decides(
                group::members_of(members@),
                partitions_per_topic.view(),
            ),
            forall|id: Seq<char>|
                assignment@.dom().contains(id) <==> #[trigger] group::has_id(
                    group::members_of(members@),
                    id,
                ),
    ;
}

/// The places of the members that want a topic, among the first `n` ordered members.
pub open spec fn subscribers(sorted: Seq<Member>, topic: Seq<char>, n: nat) -> Seq<int>
    decreases n,
{
    if n == 0 {
        Seq::empty()
    } else {
        let earlier = subscribers(sorted, topic, (n - 1) as nat);
        if group::wants(sorted[n - 1], topic) {
            earlier.push(n - 1)
        } else {
            earlier
        }
    }
}

/// Where block `j` begins when `count` partitions are split into `m` blocks, of which
/// the earliest ones take the remainder.
pub open spec fn block_start(count: int, m: int, j: int) -> int {
    (count / m) * j + (if j < count % m {
        j
    } else {
        count % m
    })
}

/// The block that partition `p` lies in, from block `j` on.
pub open spec fn block_of(count: int, m: int, p: int, j: int) -> int
    decreases m - j,
{
    if j + 1 >= m || p < block_start(count, m, j + 1) {
        j
    } else {
        block_of(count, m, p, j + 1)
    }
}

/// The owners of one topic's partitions: contiguous blocks, one per subscriber.
pub open spec fn range_topic(sorted: Seq<Member>, topic: Seq<char>, count: i32) -> Seq<
    Option<int>,
> {
    let subs = subscribers(sorted, topic, sorted.len());
    Seq::new(
        group::topic_slots(topic, count).len(),
        |p: int|
            if subs.len() == 0 {
                None
            } else {
                Some(subs[block_of(count as int, subs.len() as int, p, 0)])
            },
    )
}

/// The owners of the partitions of the first `n` topics.
pub open spec fn range_owners(
    sorted: Seq<Member>,
    topics: Seq<(Seq<char>, i32)>,
    n: nat,
) -> Seq<Option<int>>
    decreases n,
{
    if n == 0 {
        Seq::empty()
    } else {
        range_owners(sorted, topics, (n - 1) as nat) + range_topic(
            sorted,
            topics[n - 1].0,
            topics[n - 1].1,
        )
    }
}

proof fn lemma_subscribers(sorted: Seq<Member>, topic: Seq<char>, n: nat)
    requires
        n <= sorted.len(),
    ensures
        forall|i: int|
            0 <= i < subscribers(sorted, topic, n).len() ==> 0 <= (#[trigger] subscribers(
                sorted,
                topic,
                n,
            )[i]) < n && group::wants(sorted[subscribers(sorted, topic, n)[i]], topic),
        forall|k: int|
            0 <= k < n && group::wants(#[trigger] sorted[k], topic) ==> subscribers(
                sorted,
                topic,
                n,
            ).contains(k),
        subscribers(sorted, topic, n).len() <= n,
    decreases n,
{
    if n > 0 {
        lemma_subscribers(sorted, topic, (n - 1) as nat);
        let earlier = subscribers(sorted, topic, (n - 1) as nat);
        let now = subscribers(sorted, topic, n);
        assert forall|k: int| 0 <= k < n && group::wants(#[trigger] sorted[k], topic) implies
            now.contains(k) by {
            if k < n - 1 {
                assert(earlier.contains(k));
                let i = choose|i: int| 0 <= i < earlier.len() && earlier[i] == k;
                assert(now[i] == k);
            } else {
                assert(now[now.len() - 1] == k);
            }
        }
    }
}

/// Blocks follow one another, and the last one ends at `count`.
proof fn lemma_blocks(count: int, m: int, j: int)
    requires
        0 < m,
        0 <= count,
        0 <= j < m,
    ensures
        block_start(count, m, j + 1) == block_start(count, m, j) + count / m + (if j < count % m {
            1int
        } else {
            0
        }),
        block_start(count, m, 0) == 0,
        block_start(count, m, m) == count,
        0 <= count / m,
{
    let per = count / m;
    assert(per * (j + 1) == per * j + per) by (nonlinear_arith);
    assert(per * 0 == 0);
    vstd::arithmetic::div_mod::lemma_fundamental_div_mod(count, m);
    assert(per * m == m * per) by (nonlinear_arith);
    assert(0 <= count % m < m) by {
        vstd::arithmetic::div_mod::lemma_mod_bound(count, m);
    }
    assert(0 <= per) by {
        vstd::arithmetic::div_mod::lemma_div_pos_is_pos(count, m);
    }
}

proof fn lemma_block_starts_ascend(count: int, m: int, i: int, j: int)
    requires
        0 < m,
        0 <= count,
        0 <= i <= j <= m,
    ensures
        block_start(count, m, i) <= block_start(count, m, j),
    decreases j - i,
{
    if i < j {
        lemma_block_starts_ascend(count, m, i, j - 1);
        lemma_blocks(count, m, j - 1);
    }
}

/// The block of a partition is the one whose bounds it lies in.
proof fn lemma_block_of(count: int, m: int, p: int, from: int, j: int)
    requires
        0 <= count,
        0 <= from <= j < m,
        block_start(count, m, j) <= p < block_start(count, m, j + 1),
    ensures
        block_of(count, m, p, from) == j,
    decreases j - from,
{
    if from < j {
        lemma_block_starts_ascend(count, m, from + 1, j);
        lemma_block_of(count, m, p, from + 1, j);
    }
}

/// The places of the members that want a topic.
fn find_subscribers(members: &[Subscription], order: &Vec<usize>, topic: &str) -> (subs: Vec<usize>)
    requires
        forall|k: int| 0 <= k < order@.len() ==> (#[trigger] order@[k]) < members@.len(),
    ensures
        subs@.map_values(|k: usize| k as int) == subscribers(
            group::at_indices(group::members_of(members@), order@),
            topic@,
            order@.len(),
        ),
        forall|i: int| 0 <= i < subs@.len() ==> (#[trigger] subs@[i]) < order@.len(),
{
    let ghost sorted = group::at_indices(group::members_of(members@), order@);
    let mut subs: Vec<usize> = Vec::new();
    let mut k: usize = 0;
    assert(subs@.map_values(|k: usize| k as int) =~= Seq::empty());
    while k < order.len()
        invariant
            forall|k: int| 0 <= k < order@.len() ==> (#[trigger] order@[k]) < members@.len(),
            sorted == group::at_indices(group::members_of(members@), order@),
            k <= order@.len(),
            forall|i: int| 0 <= i < subs@.len() ==> (#[trigger] subs@[i]) < order@.len(),
            subs@.map_values(|k: usize| k as int) == subscribers(sorted, topic@, k as nat),
        decreases order@.len() - k,
    {
        let ghost was = subs@.map_values(|k: usize| k as int);
        assert(sorted[k as int] == members@[order@[k as int] as int]@);
        if names::has(members[order[k]].topics.as_slice(), topic) {
            subs.push(k);
            assert(subs@.map_values(|k: usize| k as int) =~= was.push(k as int));
        }
        k = k + 1;
    }
    subs
}

/// Appends the owners of one topic's partitions.
fn push_range(
    members: &[Subscription],
    order: &Vec<usize>,
    topic: &str,
    count: i32,
    owners: &mut Vec<Option<usize>>,
)
    requires
        forall|k: int| 0 <= k < order@.len() ==> (#[trigger] order@[k]) < members@.len(),
        forall|i: int|
            0 <= i < old(owners)@.len() ==> ((#[trigger] old(owners)@[i]) matches Some(k) ==> k
                < order@.len()),
    ensures
        forall|i: int|
            0 <= i < final(owners)@.len() ==> ((#[trigger] final(owners)@[i]) matches Some(k)
                ==> k < order@.len()),
        group::owners_of(final(owners)@) == group::owners_of(old(owners)@) + range_topic(
            group::at_indices(group::members_of(members@), order@),
            topic@,
            count,
        ),
{
    let ghost sorted = group::at_indices(group::members_of(members@), order@);
    let ghost before = group::owners_of(owners@);
    let ghost goal = range_topic(sorted, topic@, count);
    let subs = find_subscribers(members, order, topic);
    let ghost places = subscribers(sorted, topic@, sorted.len());
    if count <= 0 {
        assert(before + goal =~= before);
        return;
    }
    let total: i64 = count as i64;
    if subs.len() == 0 {
        let mut p: i64 = 0;
        assert(before + goal.take(0) =~= before);
        while p < total
            invariant
                0 <= p <= total,
                total == count,
                count > 0,
                places.len() == 0,
                places == subscribers(sorted, topic@, sorted.len()),
                goal == range_topic(sorted, topic@, count),
                forall|i: int|
                    0 <= i < owners@.len() ==> ((#[trigger] owners@[i]) matches Some(k) ==> k
                        < order@.len()),
                group::owners_of(owners@) == before + goal.take(p as int),
            decreases total - p,
        {
            let ghost was = group::owners_of(owners@);
            owners.push(None);
            assert(group::owners_of(owners@) =~= was.push(None));
            assert(goal[p as int] == None::<int>);
            assert(was.push(None) =~= before + goal.take(p + 1));
            p = p + 1;
        }
        assert(goal.take(p as int) =~= goal);
        return;
    }
    let ghost m = subs@.len() as int;
    assert(m == places.len());
    let parts: u64 = subs.len() as u64;
    let per: i64 = if parts > total as u64 {
        0
    } else {
        total / parts as i64
    };
    let extra: i64 = if parts > total as u64 {
        total
    } else {
        total % parts as i64
    };
    proof {
        if m > total {
            vstd::arithmetic::div_mod::lemma_basic_div(total as int, m);
            vstd::arithmetic::div_mod::lemma_small_mod(total as nat, m as nat);
        }
        assert(per == total as int / m);
        assert(extra == total as int % m);
        lemma_blocks(total as int, m, 0);
        assert(before + goal.take(0) =~= before);
    }
    let mut j: usize = 0;
    let mut p: i64 = 0;
    while j < subs.len()
        invariant
            j <= subs@.len(),
            m == subs@.len(),
            m > 0,
            m == places.len(),
            places == subs@.map_values(|k: usize| k as int),
            places == subscribers(sorted, topic@, sorted.len()),
            forall|i: int| 0 <= i < subs@.len() ==> (#[trigger] subs@[i]) < order@.len(),
            total == count,
            count > 0,
            per == total as int / m,
            extra == total as int % m,
            goal == range_topic(sorted, topic@, count),
            goal.len() == total,
            p == block_start(total as int, m, j as int),
            0 <= p <= total,
            forall|i: int|
                0 <= i < owners@.len() ==> ((#[trigger] owners@[i]) matches Some(k) ==> k
                    < order@.len()),
            group::owners_of(owners@) == before + goal.take(p as int),
        decreases subs@.len() - j,
    {
        proof {
            lemma_blocks(total as int, m, j as int);
            lemma_block_starts_ascend(total as int, m, j + 1, m);
            lemma_block_starts_ascend(total as int, m, 0, j as int);
        }
        let end: i64 = p + per + (if (j as u64) < extra as u64 {
            1
        } else {
            0
        });
        while p < end
            invariant
                block_start(total as int, m, j as int) <= p <= end,
                end == block_start(total as int, m, j + 1),
                end <= total,
                0 <= p,
                j < subs@.len(),
                m == subs@.len(),
                m == places.len(),
                places == subs@.map_values(|k: usize| k as int),
                places == subscribers(sorted, topic@, sorted.len()),
                forall|i: int| 0 <= i < subs@.len() ==> (#[trigger] subs@[i]) < order@.len(),
                total == count,
                count > 0,
                goal == range_topic(sorted, topic@, count),
                goal.len() == total,
                forall|i: int|
                    0 <= i < owners@.len() ==> ((#[trigger] owners@[i]) matches Some(k) ==> k
                        < order@.len()),
                group::owners_of(owners@) == before + goal.take(p as int),
            decreases end - p,
        {
            let ghost was = group::owners_of(owners@);
            owners.push(Some(subs[j]));
            proof {
                lemma_block_of(total as int, m, p as int, 0, j as int);
                let who = Some(places[j as int]);
                assert(group::owners_of(owners@) =~= was.push(who));
                assert(goal[p as int] == who);
                assert(was.push(who) =~= before + goal.take(p + 1));
            }
            p = p + 1;
        }
        j = j + 1;
    }
    assert(goal.take(p as int) =~= goal);
}

/// Contiguous ranges per topic.
///
/// The subscribers of a topic stand in the order of their ids and its partitions are
/// split into blocks: 7 partitions and 3 members make 3, 2 and 2. It is not balanced
/// across topics: with several small topics the first member accumulates the
/// remainders of each, which is part of what this strategy is.
#[derive(Debug, Default, Clone, Copy)]
pub struct RangeAssignor;

impl Assignor for RangeAssignor {
    open spec fn protocol(&self) -> Seq<char> {
        "range"@
    }

    open spec fn decides(&self, members: Seq<Member>, topics: Seq<(Seq<char>, i32)>) -> Map<
        Seq<char>,
        Seq<(Seq<char>, i32)>,
    > {
        let sorted = group::ordered(members);
        group::shares(
            group::every_slot(topics),
            range_owners(sorted, topics, topics.len()),
            sorted,
        )
    }

    fn name(&self) -> (name: &'static str) {
        "range"
    }

    fn assign(
        &self,
        members: &[Subscription],
        partitions_per_topic: &PartitionCounts,
    ) -> (assignment: Assignment) {
        let ghost views = group::members_of(members@);
        let ghost sorted = group::ordered(views);
        let ghost topics = partitions_per_topic.view();
        let order = group::sorted_indices(members);
        let all = partitions_per_topic.partitions();
        let entries = partitions_per_topic.entries();
        let mut owners: Vec<Option<usize>> = Vec::new();
        let mut i: usize = 0;
        assert(group::owners_of(owners@) =~= Seq::empty());
        while i < entries.len()
            invariant
                sorted == group::at_indices(group::members_of(members@), order@),
                forall|k: int| 0 <= k < order@.len() ==> (#[trigger] order@[k]) < members@.len(),
                i <= entries@.len(),
                entries@.len() == topics.len(),
                forall|i: int|
                    0 <= i < entries@.len() ==> topics[i] == (
                        (#[trigger] entries@[i]).0@,
                        entries@[i].1,
                    ),
                forall|i: int|
                    0 <= i < owners@.len() ==> ((#[trigger] owners@[i]) matches Some(k) ==> k
                        < order@.len()),
                group::owners_of(owners@) == range_owners(sorted, topics, i as nat),
            decreases entries@.len() - i,
        {
            push_range(members, &order, entries[i].0.as_str(), entries[i].1, &mut owners);
            i = i + 1;
        }
        proof {
            lemma_range_len(sorted, topics, topics.len());
            assert(group::owners_of(owners@).len() == owners@.len());
            assert(group::slots_of(all@).len() == all@.len());
            assert forall|id: Seq<char>| #[trigger] group::has_id(sorted, id) == group::has_id(
                views,
                id,
            ) by {
                group::lemma_same_ids(views, id);
            }
        }
        group::publish(members, &order, &all, &owners)
    }
}

proof fn lemma_range_len(sorted: Seq<Member>, topics: Seq<(Seq<char>, i32)>, n: nat)
    requires
        n <= topics.len(),
    ensures
        range_owners(sorted, topics, n).len() == group::all_slots(topics, n).len(),
    decreases n,
{
    if n > 0 {
        lemma_range_len(sorted, topics, (n - 1) as nat);
    }
}

/// The first member that wants a topic, going round from place `start`, `d` places
/// having been tried.
pub open spec fn next_wanting(
    sorted: Seq<Member>,
    topic: Seq<char>,
    start: int,
    d: int,
) -> Option<int>
    decreases sorted.len() - d,
{
    if d >= sorted.len() {
        None
    } else {
        let k = (start + d) % (sorted.len() as int);
        if group::wants(sorted[k], topic) {
            Some(k)
        } else {
            next_wanting(sorted, topic, start, d + 1)
        }
    }
}

/// The owners of the first `n` partitions when they are dealt one at a time, and the
/// place of the member whose turn it is then. A partition that nobody wants is left
/// out, and costs nobody a turn.
pub open spec fn dealt(
    all: Seq<(Seq<char>, i32)>,
    sorted: Seq<Member>,
    n: nat,
) -> (Seq<Option<int>>, int)
    decreases n,
{
    if n == 0 {
        (Seq::empty(), 0)
    } else {
        let (owners, turn) = dealt(all, sorted, (n - 1) as nat);
        match next_wanting(sorted, all[n - 1].0, turn, 0) {
            None => (owners.push(None), turn),
            Some(k) => (owners.push(Some(k)), (k + 1) % (sorted.len() as int)),
        }
    }
}

/// The first member that wants a topic, going round from `start`.
fn find_next(members: &[Subscription], order: &Vec<usize>, topic: &str, start: usize) -> (found:
    Option<usize>)
    requires
        forall|k: int| 0 <= k < order@.len() ==> (#[trigger] order@[k]) < members@.len(),
        order@.len() == 0 || start < order@.len(),
    ensures
        ({
            let sorted = group::at_indices(group::members_of(members@), order@);
            match found {
                Some(k) => k < order@.len() && next_wanting(sorted, topic@, start as int, 0)
                    == Some(k as int),
                None => next_wanting(sorted, topic@, start as int, 0) is None,
            }
        }),
{
    let ghost sorted = group::at_indices(group::members_of(members@), order@);
    let size: usize = order.len();
    let mut d: usize = 0;
    let mut k: usize = start;
    proof {
        if size > 0 {
            vstd::arithmetic::div_mod::lemma_small_mod(start as nat, size as nat);
        }
    }
    while d < size
        invariant
            forall|k: int| 0 <= k < order@.len() ==> (#[trigger] order@[k]) < members@.len(),
            sorted == group::at_indices(group::members_of(members@), order@),
            size == order@.len(),
            size > 0 ==> start < size,
            d <= size,
            size > 0 ==> k < size,
            size > 0 ==> k == (start + d) % (size as int),
            next_wanting(sorted, topic@, start as int, 0) == next_wanting(
                sorted,
                topic@,
                start as int,
                d as int,
            ),
        decreases size - d,
    {
        assert(sorted[k as int] == members@[order@[k as int] as int]@);
        if names::has(members[order[k]].topics.as_slice(), topic) {
            return Some(k);
        }
        d = d + 1;
        k = if k + 1 == size {
            0
        } else {
            k + 1
        };
        proof {
            if start + d < size {
                vstd::arithmetic::div_mod::lemma_small_mod((start + d) as nat, size as nat);
            } else {
                vstd::arithmetic::div_mod::lemma_mod_add_multiples_vanish(
                    start + d - size,
                    size as int,
                );
                if start + d - size < size {
                    vstd::arithmetic::div_mod::lemma_small_mod(
                        (start + d - size) as nat,
                        size as nat,
                    );
                }
            }
            if start + d - 1 < size {
                vstd::arithmetic::div_mod::lemma_small_mod((start + d - 1) as nat, size as nat);
            } else {
                vstd::arithmetic::div_mod::lemma_mod_add_multiples_vanish(
                    start + d - 1 - size,
                    size as int,
                );
                vstd::arithmetic::div_mod::lemma_small_mod(
                    (start + d - 1 - size) as nat,
                    size as nat,
                );
            }
            if d == size {
                assert((start + d) % (size as int) == start) by {
                    vstd::arithmetic::div_mod::lemma_mod_add_multiples_vanish(
                        start as int,
                        size as int,
                    );
                    vstd::arithmetic::div_mod::lemma_small_mod(start as nat, size as nat);
                }
            }
        }
    }
    None
}

/// One partition at a time around the members.
///
/// Every partition of the group is laid out in order and dealt to the members in
/// turn, past those that did not subscribe to its topic. This balances across topics,
/// and moves almost every partition when the membership changes.
#[derive(Debug, Default, Clone, Copy)]
pub struct RoundRobinAssignor;

impl Assignor for RoundRobinAssignor {
    open spec fn protocol(&self) -> Seq<char> {
        "roundrobin"@
    }

    open spec fn decides(&self, members: Seq<Member>, topics: Seq<(Seq<char>, i32)>) -> Map<
        Seq<char>,
        Seq<(Seq<char>, i32)>,
    > {
        let sorted = group::ordered(members);
        let all = group::every_slot(topics);
        group::shares(all, dealt(all, sorted, all.len()).0, sorted)
    }

    fn name(&self) -> (name: &'static str) {
        "roundrobin"
    }

    fn assign(
        &self,
        members: &[Subscription],
        partitions_per_topic: &PartitionCounts,
    ) -> (assignment: Assignment) {
        let ghost views = group::members_of(members@);
        let ghost sorted = group::ordered(views);
        let order = group::sorted_indices(members);
        let all = partitions_per_topic.partitions();
        let ghost slots = group::slots_of(all@);
        let mut owners: Vec<Option<usize>> = Vec::new();
        let mut turn: usize = 0;
        let mut i: usize = 0;
        assert(group::owners_of(owners@) =~= Seq::empty());
        while i < all.len()
            invariant
                sorted == group::at_indices(group::members_of(members@), order@),
                sorted.len() == order@.len(),
                forall|k: int| 0 <= k < order@.len() ==> (#[trigger] order@[k]) < members@.len(),
                slots == group::slots_of(all@),
                i <= all@.len(),
                owners@.len() == i,
                order@.len() == 0 || turn < order@.len(),
                forall|i: int|
                    0 <= i < owners@.len() ==> ((#[trigger] owners@[i]) matches Some(k) ==> k
                        < order@.len()),
                dealt(slots, sorted, i as nat) == (group::owners_of(owners@), turn as int),
            decreases all@.len() - i,
        {
            let ghost was = group::owners_of(owners@);
            assert(slots[i as int].0 == all@[i as int].topic@);
            match find_next(members, &order, all[i].topic.as_str(), turn) {
                None => {
                    owners.push(None);
                    assert(group::owners_of(owners@) =~= was.push(None));
                },
                Some(k) => {
                    owners.push(Some(k));
                    let size: usize = order.len();
                    turn = if k + 1 == size {
                        0
                    } else {
                        k + 1
                    };
                    proof {
                        assert(group::owners_of(owners@) =~= was.push(Some(k as int)));
                        let size = sorted.len() as int;
                        if k + 1 == size {
                            vstd::arithmetic::div_mod::lemma_mod_self_0(size);
                        } else {
                            vstd::arithmetic::div_mod::lemma_small_mod((k + 1) as nat, size as nat);
                        }
                    }
                },
            }
            i = i + 1;
        }
        proof {
            assert forall|id: Seq<char>| #[trigger] group::has_id(sorted, id) == group::has_id(
                views,
                id,
            ) by {
                group::lemma_same_ids(views, id);
            }
        }
        group::publish(members, &order, &all, &owners)
    }
}

/// Keep what you had where possible.
///
/// Where everyone can keep all that it validly holds, it does: a group that is balanced
/// already is left as it is. Otherwise balance comes first: each member keeps at most
/// its fair share of that, and one more as long as the division leaves something over,
/// so that a member that joins an established group is given something. Whatever is
/// left goes to whoever holds fewest. Where members want different topics, the result
/// is then evened out: nobody keeps two more than somebody else that wants one of its
/// partitions.
#[derive(Debug, Default, Clone, Copy)]
pub struct StickyAssignor;

impl Assignor for StickyAssignor {
    open spec fn protocol(&self) -> Seq<char> {
        "sticky"@
    }

    open spec fn decides(&self, members: Seq<Member>, topics: Seq<(Seq<char>, i32)>) -> Map<
        Seq<char>,
        Seq<(Seq<char>, i32)>,
    > {
        let all = group::every_slot(topics);
        group::shares(all, sticky::sticky_owners(all, members), group::ordered(members))
    }

    fn name(&self) -> (name: &'static str) {
        "sticky"
    }

    fn assign(
        &self,
        members: &[Subscription],
        partitions_per_topic: &PartitionCounts,
    ) -> (assignment: Assignment) {
        let ghost views = group::members_of(members@);
        let ghost sorted = group::ordered(views);
        let order = group::sorted_indices(members);
        let all = partitions_per_topic.partitions();
        let owners = sticky::settle(members, &order, &all);
        proof {
            assert forall|id: Seq<char>| #[trigger] group::has_id(sorted, id) == group::has_id(
                views,
                id,
            ) by {
                group::lemma_same_ids(views, id);
            }
        }
        group::publish(members, &order, &all, &owners)
    }
}

/// Who holds a partition right now, by the claims of the first `n` members as they
/// stand: the last one to claim it.
pub open spec fn current_owner(
    members: Seq<Member>,
    slot: (Seq<char>, i32),
    n: nat,
) -> Option<Seq<char>>
    decreases n,
{
    if n == 0 {
        None
    } else if members[n - 1].owned.contains(slot) {
        Some(members[n - 1].id)
    } else {
        current_owner(members, slot, (n - 1) as nat)
    }
}

/// The owners that the cooperative strategy publishes: those that the sticky one
/// settles on, without partitions that somebody else still holds.
pub open spec fn published_owners(
    all: Seq<(Seq<char>, i32)>,
    members: Seq<Member>,
) -> Seq<Option<int>> {
    let sorted = group::ordered(members);
    let target = sticky::sticky_owners(all, members);
    Seq::new(
        all.len(),
        |i: int|
            match target[i] {
                None => None,
                Some(k) => match current_owner(members, all[i], members.len()) {
                    Some(holder) => if holder == sorted[k].id {
                        Some(k)
                    } else {
                        None
                    },
                    None => Some(k),
                },
            },
    )
}

/// Who holds a partition right now.
fn find_owner<'a>(members: &'a [Subscription], slot: &TopicPartition) -> (owner: Option<&'a str>)
    ensures
        current_owner(group::members_of(members@), slot@, members@.len()) == match owner {
            Some(id) => Some(id@),
            None => None,
        },
{
    let ghost views = group::members_of(members@);
    let mut n: usize = members.len();
    while n > 0
        invariant
            views == group::members_of(members@),
            n <= members@.len(),
            current_owner(views, slot@, members@.len()) == current_owner(views, slot@, n as nat),
        decreases n,
    {
        let member = &members[n - 1];
        assert(views[n - 1] == member@);
        let mut c: usize = 0;
        while c < member.owned.len()
            invariant
                c <= member.owned@.len(),
                views == group::members_of(members@),
                0 < n <= members@.len(),
                views[n - 1] == member@,
                current_owner(views, slot@, members@.len()) == current_owner(
                    views,
                    slot@,
                    n as nat,
                ),
                forall|d: int| 0 <= d < c ==> (#[trigger] member@.owned[d]) != slot@,
            decreases member.owned@.len() - c,
        {
            assert(member@.owned[c as int] == member.owned@[c as int]@);
            if member.owned[c].is(slot) {
                return Some(member.member_id.as_str());
            }
            c = c + 1;
        }
        n = n - 1;
    }
    None
}

/// Sticky, but handing partitions over **one rebalance at a time**.
///
/// A partition that must move from one member to another is given to **neither** in
/// this round: its holder sees it missing, revokes it and rejoins, and the next round
/// hands it over. So a member never stops reading what it keeps, and the assignment
/// is deliberately incomplete.
///
/// Who holds a partition is judged by the claims as they stand, stale ones too: a
/// member whose claim is stale is reading the partition regardless.
#[derive(Debug, Default, Clone, Copy)]
pub struct CooperativeStickyAssignor;

impl Assignor for CooperativeStickyAssignor {
    open spec fn protocol(&self) -> Seq<char> {
        "cooperative-sticky"@
    }

    open spec fn decides(&self, members: Seq<Member>, topics: Seq<(Seq<char>, i32)>) -> Map<
        Seq<char>,
        Seq<(Seq<char>, i32)>,
    > {
        let all = group::every_slot(topics);
        group::shares(all, published_owners(all, members), group::ordered(members))
    }

    fn name(&self) -> (name: &'static str) {
        "cooperative-sticky"
    }

    fn assign(
        &self,
        members: &[Subscription],
        partitions_per_topic: &PartitionCounts,
    ) -> (assignment: Assignment) {
        let ghost views = group::members_of(members@);
        let ghost sorted = group::ordered(views);
        let order = group::sorted_indices(members);
        let all = partitions_per_topic.partitions();
        let ghost slots = group::slots_of(all@);
        let target = sticky::settle(members, &order, &all);
        let ghost goal = published_owners(slots, views);
        let mut owners: Vec<Option<usize>> = Vec::new();
        let mut i: usize = 0;
        while i < all.len()
            invariant
                views == group::members_of(members@),
                sorted == group::ordered(views),
                sorted == group::at_indices(views, order@),
                forall|k: int| 0 <= k < order@.len() ==> (#[trigger] order@[k]) < members@.len(),
                slots == group::slots_of(all@),
                slots.len() == all@.len(),
                goal == published_owners(slots, views),
                i <= all@.len(),
                owners@.len() == i,
                target@.len() == all@.len(),
                group::owners_of(target@) == sticky::sticky_owners(slots, views),
                forall|i: int|
                    0 <= i < target@.len() ==> ((#[trigger] target@[i]) matches Some(k) ==> k
                        < order@.len()),
                forall|i: int|
                    0 <= i < owners@.len() ==> ((#[trigger] owners@[i]) matches Some(k) ==> k
                        < order@.len()),
                forall|j: int|
                    0 <= j < i ==> #[trigger] goal[j] == match owners@[j] {
                        Some(k) => Some(k as int),
                        None => None,
                    },
            decreases all@.len() - i,
        {
            assert(slots[i as int] == all@[i as int]@);
            assert(sticky::sticky_owners(slots, views)[i as int] == match target@[i as int] {
                Some(k) => Some(k as int),
                None => None,
            });
            let granted: Option<usize> = match target[i] {
                None => None,
                Some(k) => {
                    assert(sorted[k as int].id == members@[order@[k as int] as int].member_id@);
                    match find_owner(members, &all[i]) {
                        None => Some(k),
                        Some(holder) => if names::same(
                            holder,
                            members[order[k]].member_id.as_str(),
                        ) {
                            Some(k)
                        } else {
                            None
                        },
                    }
                },
            };
            owners.push(granted);
            i = i + 1;
        }
        proof {
            assert(group::owners_of(owners@) =~= goal);
            assert forall|id: Seq<char>| #[trigger] group::has_id(sorted, id) == group::has_id(
                views,
                id,
            ) by {
                group::lemma_same_ids(views, id);
            }
        }
        group::publish(members, &order, &all, &owners)
    }
}

/// Whether some member wants a topic.
pub open spec fn somebody_wants(members: Seq<Member>, topic: Seq<char>) -> bool {
    exists|k: int| 0 <= k < members.len() && group::wants(#[trigger] members[k], topic)
}

/// Whether a member with this id wants a topic.
pub open spec fn id_wants(members: Seq<Member>, id: Seq<char>, topic: Seq<char>) -> bool {
    exists|k: int|
        0 <= k < members.len() && (#[trigger] members[k]).id == id && group::wants(
            members[k],
            topic,
        )
}

/// Whether, of all members, `id` alone gets a partition.
pub open spec fn sole_owner(
    result: Map<Seq<char>, Seq<(Seq<char>, i32)>>,
    slot: (Seq<char>, i32),
    id: Seq<char>,
) -> bool {
    &&& result.dom().contains(id)
    &&& result[id].contains(slot)
    &&& forall|other: Seq<char>|
        #[trigger] result.dom().contains(other) && result[other].contains(slot) ==> other == id
}

/// Whether nobody gets a partition twice, shares one with another member, or gets one
/// that does not exist or that it did not subscribe to.
pub open spec fn never_twice(
    result: Map<Seq<char>, Seq<(Seq<char>, i32)>>,
    members: Seq<Member>,
    topics: Seq<(Seq<char>, i32)>,
) -> bool {
    &&& forall|id: Seq<char>| #[trigger] result.dom().contains(id) ==> result[id].no_duplicates()
    &&& forall|id: Seq<char>, slot: (Seq<char>, i32)|
        result.dom().contains(id) && #[trigger] result[id].contains(slot) ==> {
            &&& group::every_slot(topics).contains(slot)
            &&& id_wants(members, id, slot.0)
            &&& sole_owner(result, slot, id)
        }
}

/// Whether every partition of a topic that somebody wants is given to exactly one
/// member.
pub open spec fn all_given(
    result: Map<Seq<char>, Seq<(Seq<char>, i32)>>,
    members: Seq<Member>,
    topics: Seq<(Seq<char>, i32)>,
) -> bool {
    forall|slot: (Seq<char>, i32)|
        #[trigger] group::every_slot(topics).contains(slot) && somebody_wants(members, slot.0)
            ==> exists|id: Seq<char>| sole_owner(result, slot, id)
}

/// Whether owners are places of members that want what they own.
pub open spec fn apt(
    all: Seq<(Seq<char>, i32)>,
    owners: Seq<Option<int>>,
    sorted: Seq<Member>,
) -> bool {
    &&& owners.len() == all.len()
    &&& forall|i: int|
        0 <= i < owners.len() ==> ((#[trigger] owners[i]) matches Some(k) ==> 0 <= k < sorted.len()
            && group::wants(sorted[k], all[i].0))
}

/// Whether everything that somebody wants has an owner.
pub open spec fn complete(
    all: Seq<(Seq<char>, i32)>,
    owners: Seq<Option<int>>,
    sorted: Seq<Member>,
) -> bool {
    forall|i: int|
        0 <= i < owners.len() && somebody_wants(sorted, all[i].0) ==> (
        #[trigger] owners[i]) is Some
}

pub(crate) proof fn lemma_share_contains(
    all: Seq<(Seq<char>, i32)>,
    owners: Seq<Option<int>>,
    sorted: Seq<Member>,
    id: Seq<char>,
    n: nat,
    slot: (Seq<char>, i32),
)
    requires
        n <= all.len(),
    ensures
        group::share(all, owners, sorted, id, n).contains(slot) <==> exists|i: int|
            0 <= i < n && #[trigger] all[i] == slot && owners[i] is Some
                && sorted[owners[i].unwrap()].id == id,
    decreases n,
{
    let now = group::share(all, owners, sorted, id, n);
    if n == 0 {
        assert(!now.contains(slot));
    } else {
        let earlier = group::share(all, owners, sorted, id, (n - 1) as nat);
        lemma_share_contains(all, owners, sorted, id, (n - 1) as nat, slot);
        let mine = owners[n - 1] is Some && sorted[owners[n - 1].unwrap()].id == id;
        if mine {
            assert(now == earlier.push(all[n - 1]));
            assert(now[now.len() - 1] == all[n - 1]);
            if earlier.contains(slot) {
                let e = choose|e: int| 0 <= e < earlier.len() && earlier[e] == slot;
                assert(now[e] == slot);
            }
            if now.contains(slot) && !earlier.contains(slot) {
                let e = choose|e: int| 0 <= e < now.len() && now[e] == slot;
                if e < earlier.len() {
                    assert(earlier[e] == slot);
                }
                assert(all[n - 1] == slot);
            }
        }
    }
}

pub(crate) proof fn lemma_share_no_duplicates(
    all: Seq<(Seq<char>, i32)>,
    owners: Seq<Option<int>>,
    sorted: Seq<Member>,
    id: Seq<char>,
    n: nat,
)
    requires
        n <= all.len(),
        all.no_duplicates(),
    ensures
        group::share(all, owners, sorted, id, n).no_duplicates(),
    decreases n,
{
    if n > 0 {
        let earlier = group::share(all, owners, sorted, id, (n - 1) as nat);
        lemma_share_no_duplicates(all, owners, sorted, id, (n - 1) as nat);
        lemma_share_contains(all, owners, sorted, id, (n - 1) as nat, all[n - 1]);
        if earlier.contains(all[n - 1]) {
            let i = choose|i: int| 0 <= i < n - 1 && #[trigger] all[i] == all[n - 1];
            assert(false);
        }
        let now = group::share(all, owners, sorted, id, n);
        assert forall|a: int, b: int| 0 <= a < now.len() && 0 <= b < now.len() && a != b implies
            now[a] != now[b] by {
            if a < earlier.len() && b < earlier.len() {
                assert(now[a] == earlier[a] && now[b] == earlier[b]);
            } else if a < earlier.len() {
                assert(earlier.contains(earlier[a]));
            } else if b < earlier.len() {
                assert(earlier.contains(earlier[b]));
            }
        }
    }
}

/// Partitions are laid out without repetition.
pub proof fn lemma_slots_distinct(topics: Seq<(Seq<char>, i32)>, n: nat)
    requires
        n <= topics.len(),
        group::ascending(topics),
    ensures
        group::all_slots(topics, n).no_duplicates(),
        forall|slot: (Seq<char>, i32)|
            #[trigger] group::all_slots(topics, n).contains(slot) ==> exists|t: int|
                0 <= t < n && (#[trigger] topics[t]).0 == slot.0,
    decreases n,
{
    let now = group::all_slots(topics, n);
    if n == 0 {
    } else {
        let earlier = group::all_slots(topics, (n - 1) as nat);
        let name = topics[n - 1].0;
        let last = group::topic_slots(name, topics[n - 1].1);
        lemma_slots_distinct(topics, (n - 1) as nat);
        assert forall|a: int, b: int| 0 <= a < now.len() && 0 <= b < now.len() && a != b implies
            now[a] != now[b] by {
            if a < earlier.len() && b < earlier.len() {
                assert(now[a] == earlier[a] && now[b] == earlier[b]);
            } else if a >= earlier.len() && b >= earlier.len() {
                assert(now[a] == last[a - earlier.len()] && now[b] == last[b - earlier.len()]);
            } else {
                let (x, y) = if a < earlier.len() {
                    (a, b)
                } else {
                    (b, a)
                };
                assert(now[y] == last[y - earlier.len()]);
                assert(earlier.contains(earlier[x]));
                let t = choose|t: int| 0 <= t < n - 1 && (#[trigger] topics[t]).0 == earlier[x].0;
                names::law_names_are_ordered(topics[t].0, name);
            }
        }
        assert forall|slot: (Seq<char>, i32)| #[trigger] now.contains(slot) implies exists|t: int|
            0 <= t < n && (#[trigger] topics[t]).0 == slot.0 by {
            let a = choose|a: int| 0 <= a < now.len() && now[a] == slot;
            if a < earlier.len() {
                assert(earlier.contains(earlier[a]));
                let t = choose|t: int| 0 <= t < n - 1 && (#[trigger] topics[t]).0 == slot.0;
                assert(topics[t].0 == slot.0);
            } else {
                assert(now[a] == last[a - earlier.len()]);
                assert(topics[n - 1].0 == slot.0);
            }
        }
    }
}

/// Owners that want what they own make an assignment in which nobody shares a
/// partition; if everything wanted has an owner, all of it is given.
pub(crate) proof fn lemma_owners_decide(
    topics: Seq<(Seq<char>, i32)>,
    owners: Seq<Option<int>>,
    members: Seq<Member>,
)
    requires
        group::ascending(topics),
        apt(group::every_slot(topics), owners, group::ordered(members)),
    ensures
        ({
            let all = group::every_slot(topics);
            let sorted = group::ordered(members);
            let result = group::shares(all, owners, sorted);
            &&& never_twice(result, members, topics)
            &&& complete(all, owners, sorted) ==> all_given(result, members, topics)
        }),
{
    let all = group::every_slot(topics);
    let sorted = group::ordered(members);
    let result = group::shares(all, owners, sorted);
    lemma_slots_distinct(topics, topics.len());
    group::law_members_are_ordered(members, members.len());
    assert(members.take(members.len() as int) =~= members);
    assert forall|id: Seq<char>| #[trigger] result.dom().contains(id) implies
        result[id].no_duplicates() by {
        lemma_share_no_duplicates(all, owners, sorted, id, all.len());
    }
    assert forall|i: int| 0 <= i < all.len() && owners[i] is Some implies sole_owner(
        result,
        #[trigger] all[i],
        sorted[owners[i].unwrap()].id,
    ) by {
        let k = owners[i].unwrap();
        let id = sorted[k].id;
        assert(0 <= k < sorted.len());
        assert(group::has_id(sorted, id));
        lemma_share_contains(all, owners, sorted, id, all.len(), all[i]);
        assert forall|other: Seq<char>|
            #[trigger] result.dom().contains(other) && result[other].contains(
                all[i],
            ) implies other == id by {
            lemma_share_contains(all, owners, sorted, other, all.len(), all[i]);
            let j = choose|j: int|
                0 <= j < all.len() && #[trigger] all[j] == all[i] && owners[j] is Some
                    && sorted[owners[j].unwrap()].id == other;
            assert(j == i);
        }
    }
    assert forall|id: Seq<char>, slot: (Seq<char>, i32)|
        result.dom().contains(id) && #[trigger] result[id].contains(slot) implies {
        &&& group::every_slot(topics).contains(slot)
        &&& id_wants(members, id, slot.0)
        &&& sole_owner(result, slot, id)
    } by {
        lemma_share_contains(all, owners, sorted, id, all.len(), slot);
        let i = choose|i: int|
            0 <= i < all.len() && #[trigger] all[i] == slot && owners[i] is Some
                && sorted[owners[i].unwrap()].id == id;
        let k = owners[i].unwrap();
        assert(sorted.contains(sorted[k]));
        assert(members.contains(sorted[k]));
        let m = choose|m: int| 0 <= m < members.len() && members[m] == sorted[k];
        assert(members[m].id == id && group::wants(members[m], slot.0));
        assert(all.contains(all[i]));
    }
    if complete(all, owners, sorted) {
        assert forall|slot: (Seq<char>, i32)|
            #[trigger] all.contains(slot) && somebody_wants(members, slot.0) implies exists|
            id: Seq<char>,
        | sole_owner(result, slot, id) by {
            let i = choose|i: int| 0 <= i < all.len() && all[i] == slot;
            let m = choose|m: int|
                0 <= m < members.len() && group::wants(#[trigger] members[m], slot.0);
            assert(members.contains(members[m]));
            assert(sorted.contains(members[m]));
            let k = choose|k: int| 0 <= k < sorted.len() && sorted[k] == members[m];
            assert(group::wants(sorted[k], slot.0));
            assert(somebody_wants(sorted, all[i].0));
            assert(owners[i] is Some);
            assert(sole_owner(result, all[i], sorted[owners[i].unwrap()].id));
        }
    }
}

proof fn lemma_block_bounds(count: int, m: int, p: int, j: int)
    requires
        0 <= j < m,
    ensures
        j <= block_of(count, m, p, j) < m,
    decreases m - j,
{
    if !(j + 1 >= m || p < block_start(count, m, j + 1)) {
        lemma_block_bounds(count, m, p, j + 1);
    }
}

proof fn lemma_range_apt(sorted: Seq<Member>, topics: Seq<(Seq<char>, i32)>, n: nat)
    requires
        n <= topics.len(),
    ensures
        apt(group::all_slots(topics, n), range_owners(sorted, topics, n), sorted),
        complete(group::all_slots(topics, n), range_owners(sorted, topics, n), sorted),
    decreases n,
{
    if n > 0 {
        lemma_range_apt(sorted, topics, (n - 1) as nat);
        let earlier = group::all_slots(topics, (n - 1) as nat);
        let before = range_owners(sorted, topics, (n - 1) as nat);
        let (name, count) = topics[n - 1];
        let all = group::all_slots(topics, n);
        let owners = range_owners(sorted, topics, n);
        let subs = subscribers(sorted, name, sorted.len());
        lemma_subscribers(sorted, name, sorted.len());
        assert forall|i: int| 0 <= i < owners.len() implies ((#[trigger] owners[i]) matches Some(k)
            ==> 0 <= k < sorted.len() && group::wants(sorted[k], all[i].0)) && (somebody_wants(
            sorted,
            all[i].0,
        ) ==> owners[i] is Some) by {
            if i < before.len() {
                assert(owners[i] == before[i]);
                assert(all[i] == earlier[i]);
            } else {
                let p = i - before.len();
                assert(owners[i] == range_topic(sorted, name, count)[p]);
                assert(all[i] == group::topic_slots(name, count)[p]);
                if subs.len() > 0 {
                    lemma_block_bounds(count as int, subs.len() as int, p, 0);
                    let j = block_of(count as int, subs.len() as int, p, 0);
                    assert(0 <= subs[j] < sorted.len());
                } else if somebody_wants(sorted, name) {
                    let k = choose|k: int|
                        0 <= k < sorted.len() && group::wants(#[trigger] sorted[k], name);
                    assert(subs.contains(k));
                }
            }
        }
    }
}

/// `range` gives every partition of a subscribed topic to exactly one member.
pub proof fn law_range_assigns_exactly_once(members: Seq<Member>, topics: Seq<(Seq<char>, i32)>)
    requires
        group::ascending(topics),
    ensures
        never_twice(RangeAssignor.decides(members, topics), members, topics),
        all_given(RangeAssignor.decides(members, topics), members, topics),
{
    let sorted = group::ordered(members);
    lemma_range_apt(sorted, topics, topics.len());
    lemma_owners_decide(topics, range_owners(sorted, topics, topics.len()), members);
}

proof fn lemma_next_wanting(sorted: Seq<Member>, topic: Seq<char>, start: int, d: int)
    requires
        0 <= start,
        0 <= d,
        sorted.len() == 0 || start < sorted.len(),
    ensures
        next_wanting(sorted, topic, start, d) matches Some(k) ==> 0 <= k < sorted.len()
            && group::wants(sorted[k], topic),
        next_wanting(sorted, topic, start, d) is None ==> forall|e: int|
            d <= e < sorted.len() ==> !group::wants(
                sorted[#[trigger] ((start + e) % (sorted.len() as int))],
                topic,
            ),
    decreases sorted.len() - d,
{
    if d < sorted.len() {
        let size = sorted.len() as int;
        vstd::arithmetic::div_mod::lemma_mod_bound(start + d, size);
        if !group::wants(sorted[(start + d) % size], topic) {
            lemma_next_wanting(sorted, topic, start, d + 1);
        }
    }
}

proof fn lemma_dealt_apt(all: Seq<(Seq<char>, i32)>, sorted: Seq<Member>, n: nat)
    requires
        n <= all.len(),
    ensures
        apt(all.take(n as int), dealt(all, sorted, n).0, sorted),
        complete(all.take(n as int), dealt(all, sorted, n).0, sorted),
        0 <= dealt(all, sorted, n).1,
        sorted.len() == 0 || dealt(all, sorted, n).1 < sorted.len(),
    decreases n,
{
    if n > 0 {
        lemma_dealt_apt(all, sorted, (n - 1) as nat);
        let (before, turn) = dealt(all, sorted, (n - 1) as nat);
        let (owners, next) = dealt(all, sorted, n);
        let topic = all[n - 1].0;
        let size = sorted.len() as int;
        lemma_next_wanting(sorted, topic, turn, 0);
        let found = next_wanting(sorted, topic, turn, 0);
        if found is Some {
            vstd::arithmetic::div_mod::lemma_mod_bound(found.unwrap() + 1, size);
        }
        assert forall|i: int| 0 <= i < owners.len() implies ((#[trigger] owners[i]) matches Some(k)
            ==> 0 <= k < sorted.len() && group::wants(sorted[k], all.take(n as int)[i].0)) && (
        somebody_wants(sorted, all.take(n as int)[i].0) ==> owners[i] is Some) by {
            if i < n - 1 {
                assert(owners[i] == before[i]);
                assert(all.take(n - 1)[i] == all.take(n as int)[i]);
            } else if somebody_wants(sorted, topic) && found is None {
                let k = choose|k: int|
                    0 <= k < sorted.len() && group::wants(#[trigger] sorted[k], topic);
                let e = if k >= turn {
                    k - turn
                } else {
                    k - turn + size
                };
                assert((turn + e) % size == k) by {
                    if k >= turn {
                        vstd::arithmetic::div_mod::lemma_small_mod(k as nat, size as nat);
                    } else {
                        vstd::arithmetic::div_mod::lemma_mod_add_multiples_vanish(k, size);
                        vstd::arithmetic::div_mod::lemma_small_mod(k as nat, size as nat);
                    }
                }
            }
        }
    }
}

/// `roundrobin` gives every partition of a subscribed topic to exactly one member.
pub proof fn law_roundrobin_assigns_exactly_once(
    members: Seq<Member>,
    topics: Seq<(Seq<char>, i32)>,
)
    requires
        group::ascending(topics),
    ensures
        never_twice(RoundRobinAssignor.decides(members, topics), members, topics),
        all_given(RoundRobinAssignor.decides(members, topics), members, topics),
{
    let sorted = group::ordered(members);
    let all = group::every_slot(topics);
    lemma_dealt_apt(all, sorted, all.len());
    assert(all.take(all.len() as int) =~= all);
    lemma_owners_decide(topics, dealt(all, sorted, all.len()).0, members);
}

/// Where every member wants every topic, `roundrobin` deals the partitions out in turn: it
/// balances over all topics together.
pub proof fn law_roundrobin_deals_in_turn(
    members: Seq<Member>,
    topics: Seq<(Seq<char>, i32)>,
    n: nat,
)
    requires
        members.len() > 0,
        n <= group::every_slot(topics).len(),
        forall|k: int, i: int|
            0 <= k < members.len() && 0 <= i < group::every_slot(topics).len() ==> group::wants(
                #[trigger] members[k],
                (#[trigger] group::every_slot(topics)[i]).0,
            ),
    ensures
        ({
            let (owners, turn) = dealt(group::every_slot(topics), group::ordered(members), n);
            let size = members.len() as int;
            &&& turn == n as int % size
            &&& owners.len() == n
            &&& forall|i: int| 0 <= i < n ==> #[trigger] owners[i] == Some(i % size)
        }),
    decreases n,
{
    let sorted = group::ordered(members);
    let all = group::every_slot(topics);
    let size = members.len() as int;
    group::law_members_are_ordered(members, members.len());
    assert(members.take(size) =~= members);
    if n == 0 {
        vstd::arithmetic::div_mod::lemma_small_mod(0, size as nat);
    } else {
        law_roundrobin_deals_in_turn(members, topics, (n - 1) as nat);
        let turn = (n - 1) % size;
        vstd::arithmetic::div_mod::lemma_mod_bound(n - 1, size);
        vstd::arithmetic::div_mod::lemma_small_mod(turn as nat, size as nat);
        assert(sorted.contains(sorted[turn]));
        let k = choose|k: int| 0 <= k < members.len() && members[k] == sorted[turn];
        assert(group::wants(members[k], all[n - 1].0));
        assert(next_wanting(sorted, all[n - 1].0, turn, 0) == Some(turn));
        vstd::arithmetic::div_mod::lemma_add_mod_noop(n - 1, 1, size);
        vstd::arithmetic::div_mod::lemma_add_mod_noop(turn, 1, size);
    }
}

/// Partitions that nobody wants change nothing for the others when they are dealt in turn.
proof fn lemma_unwanted_are_passed_over(
    one: Seq<(Seq<char>, i32)>,
    extra: Seq<(Seq<char>, i32)>,
    two: Seq<(Seq<char>, i32)>,
    sorted: Seq<Member>,
    id: Seq<char>,
    n: nat,
)
    requires
        n <= one.len() + extra.len() + two.len(),
        forall|i: int|
            0 <= i < extra.len() ==> !somebody_wants(sorted, (#[trigger] extra[i]).0),
    ensures
        ({
            let all = one + extra + two;
            let rest = one + two;
            let m: int = if n <= one.len() {
                n as int
            } else if n <= one.len() + extra.len() {
                one.len() as int
            } else {
                n - extra.len()
            };
            let (owners, turn) = dealt(all, sorted, n);
            let (others, next) = dealt(rest, sorted, m as nat);
            &&& owners.len() == n
            &&& others.len() == m
            &&& turn == next
            &&& 0 <= turn
            &&& sorted.len() == 0 || turn < sorted.len()
            &&& group::share(all, owners, sorted, id, n) == group::share(
                rest,
                others,
                sorted,
                id,
                m as nat,
            )
        }),
    decreases n,
{
    let all = one + extra + two;
    let rest = one + two;
    if n > 0 {
        lemma_unwanted_are_passed_over(one, extra, two, sorted, id, (n - 1) as nat);
        let (owners, turn) = dealt(all, sorted, (n - 1) as nat);
        let topic = all[n - 1].0;
        lemma_next_wanting(sorted, topic, turn, 0);
        let found = next_wanting(sorted, topic, turn, 0);
        if found is Some {
            vstd::arithmetic::div_mod::lemma_mod_bound(found.unwrap() + 1, sorted.len() as int);
        }
        let longer = dealt(all, sorted, n).0;
        assert(longer.take(owners.len() as int) =~= owners);
        lemma_share_of_longer(all, owners, longer, sorted, id, (n - 1) as nat);
        if one.len() < n <= one.len() + extra.len() {
            assert(all[n - 1] == extra[n - 1 - one.len()]);
            if found is Some {
                assert(somebody_wants(sorted, topic));
            }
        } else {
            let m: int = if n <= one.len() {
                n as int
            } else {
                n - extra.len()
            };
            assert(all[n - 1] == rest[m - 1]);
            let (others, next) = dealt(rest, sorted, (m - 1) as nat);
            let more = dealt(rest, sorted, m as nat).0;
            assert(more.take(others.len() as int) =~= others);
            lemma_share_of_longer(rest, others, more, sorted, id, (m - 1) as nat);
        }
    }
}

proof fn lemma_share_of_longer(
    all: Seq<(Seq<char>, i32)>,
    owners: Seq<Option<int>>,
    longer: Seq<Option<int>>,
    sorted: Seq<Member>,
    id: Seq<char>,
    n: nat,
)
    requires
        n <= owners.len() <= longer.len(),
        longer.take(owners.len() as int) == owners,
    ensures
        group::share(all, longer, sorted, id, n) == group::share(all, owners, sorted, id, n),
    decreases n,
{
    if n > 0 {
        lemma_share_of_longer(all, owners, longer, sorted, id, (n - 1) as nat);
        assert(longer.take(owners.len() as int)[n - 1] == longer[n - 1]);
    }
}

proof fn lemma_slots_insert(
    topics: Seq<(Seq<char>, i32)>,
    at: int,
    entry: (Seq<char>, i32),
    n: nat,
)
    requires
        0 <= at <= n <= topics.len(),
    ensures
        ({
            let before = group::all_slots(topics, at as nat);
            let after = group::all_slots(topics, n).skip(before.len() as int);
            &&& group::all_slots(topics, n) == before + after
            &&& group::all_slots(topics.insert(at, entry), n + 1) == before + group::topic_slots(
                entry.0,
                entry.1,
            ) + after
        }),
    decreases n,
{
    let more = topics.insert(at, entry);
    let before = group::all_slots(topics, at as nat);
    let extra = group::topic_slots(entry.0, entry.1);
    if n == at {
        lemma_slots_prefix(topics, more, at as nat);
        assert(before.skip(before.len() as int) =~= Seq::empty());
        assert(before + Seq::empty() =~= before);
        assert(before + extra + Seq::empty() =~= before + extra);
    } else {
        lemma_slots_insert(topics, at, entry, (n - 1) as nat);
        let earlier = group::all_slots(topics, (n - 1) as nat);
        let last = group::topic_slots(topics[n - 1].0, topics[n - 1].1);
        assert(more[n as int] == topics[n - 1]);
        let now = group::all_slots(topics, n);
        let was = earlier.skip(before.len() as int);
        assert(earlier == before + was);
        assert(now =~= before + (was + last));
        assert(now.skip(before.len() as int) =~= was + last);
        assert(before + extra + was + last =~= before + extra + (was + last));
    }
}

proof fn lemma_slots_prefix(one: Seq<(Seq<char>, i32)>, other: Seq<(Seq<char>, i32)>, n: nat)
    requires
        n <= one.len(),
        n <= other.len(),
        forall|i: int| 0 <= i < n ==> one[i] == other[i],
    ensures
        group::all_slots(one, n) == group::all_slots(other, n),
    decreases n,
{
    if n > 0 {
        lemma_slots_prefix(one, other, (n - 1) as nat);
    }
}

/// A topic that nobody wants changes nothing for `roundrobin`: its partitions cost nobody a
/// turn.
pub proof fn law_roundrobin_passes_over_unwanted_topics(
    members: Seq<Member>,
    topics: Seq<(Seq<char>, i32)>,
    at: int,
    name: Seq<char>,
    count: i32,
)
    requires
        0 <= at <= topics.len(),
        !somebody_wants(members, name),
    ensures
        RoundRobinAssignor.decides(members, topics.insert(at, (name, count)))
            == RoundRobinAssignor.decides(members, topics),
{
    let more = topics.insert(at, (name, count));
    let sorted = group::ordered(members);
    group::law_members_are_ordered(members, members.len());
    assert(members.take(members.len() as int) =~= members);
    lemma_slots_insert(topics, at, (name, count), topics.len());
    let one = group::all_slots(topics, at as nat);
    let extra = group::topic_slots(name, count);
    let two = group::every_slot(topics).skip(one.len() as int);
    if somebody_wants(sorted, name) {
        let k = choose|k: int| 0 <= k < sorted.len() && group::wants(#[trigger] sorted[k], name);
        assert(sorted.contains(sorted[k]));
        let m = choose|m: int| 0 <= m < members.len() && members[m] == sorted[k];
        assert(group::wants(members[m], name));
    }
    let before = RoundRobinAssignor.decides(members, topics);
    let after = RoundRobinAssignor.decides(members, more);
    assert forall|id: Seq<char>| #[trigger] after.dom().contains(id) implies after[id]
        == before[id] by {
        lemma_unwanted_are_passed_over(
            one,
            extra,
            two,
            sorted,
            id,
            group::every_slot(more).len(),
        );
    }
    assert(after =~= before);
}

/// `range` splits each topic into as many contiguous blocks as it has subscribers, in the
/// order of their ids: each gets as many partitions as the division gives, and the first
/// ones one more as long as something is left over.
pub proof fn law_range_splits_a_topic_into_blocks(
    sorted: Seq<Member>,
    topic: Seq<char>,
    count: i32,
    j: int,
    p: int,
)
    requires
        count > 0,
        0 <= j < sorted.filter(|m: Member| m.topics.contains(topic)).len(),
        ({
            let m = sorted.filter(|m: Member| m.topics.contains(topic)).len() as int;
            let (per, over) = (count as int / m, count as int % m);
            let start = per * j + if j < over {
                j
            } else {
                over
            };
            start <= p < start + per + if j < over {
                1int
            } else {
                0
            }
        }),
    ensures
        ({
            let subs = sorted.filter(|m: Member| m.topics.contains(topic));
            let owner = range_topic(sorted, topic, count)[p];
            &&& 0 <= p < count
            &&& range_topic(sorted, topic, count).len() == count
            &&& owner matches Some(k)
            &&& 0 <= k < sorted.len()
            &&& sorted[k] == subs[j]
        }),
{
    let wanting = |m: Member| m.topics.contains(topic);
    let subs = subscribers(sorted, topic, sorted.len());
    lemma_subscribers_in_order(sorted, topic, sorted.len());
    assert(sorted.take(sorted.len() as int) =~= sorted);
    let m = subs.len() as int;
    lemma_blocks(count as int, m, j);
    lemma_block_starts_ascend(count as int, m, 0, j);
    lemma_block_starts_ascend(count as int, m, j + 1, m);
    lemma_block_of(count as int, m, p, 0, j);
    lemma_subscribers(sorted, topic, sorted.len());
    assert(subs.map_values(|k: int| sorted[k])[j] == sorted.filter(wanting)[j]);
}

proof fn lemma_subscribers_in_order(sorted: Seq<Member>, topic: Seq<char>, n: nat)
    requires
        n <= sorted.len(),
    ensures
        subscribers(sorted, topic, n).map_values(|k: int| sorted[k]) == sorted.take(
            n as int,
        ).filter(|m: Member| m.topics.contains(topic)),
    decreases n,
{
    reveal(Seq::filter);
    let wanting = |m: Member| m.topics.contains(topic);
    let member = |k: int| sorted[k];
    let now = sorted.take(n as int);
    if n > 0 {
        lemma_subscribers_in_order(sorted, topic, (n - 1) as nat);
        let earlier = subscribers(sorted, topic, (n - 1) as nat);
        assert(now.drop_last() =~= sorted.take(n - 1));
        assert(now.last() == sorted[n - 1]);
        if wanting(sorted[n - 1]) {
            assert(subscribers(sorted, topic, n).map_values(member) =~= earlier.map_values(
                member,
            ).push(sorted[n - 1]));
        }
    }
    assert(subscribers(sorted, topic, n).map_values(member) =~= now.filter(wanting));
}

/// `roundrobin` gives a partition to the first member, going round from the one whose turn
/// it is, that wants its topic; then it is the turn of the one behind that member.
pub proof fn law_roundrobin_takes_turns(
    all: Seq<(Seq<char>, i32)>,
    sorted: Seq<Member>,
    n: nat,
    d: int,
)
    requires
        n < all.len(),
        0 <= d < sorted.len(),
        ({
            let turn = dealt(all, sorted, n).1;
            &&& group::wants(sorted[(turn + d) % (sorted.len() as int)], all[n as int].0)
            &&& forall|e: int|
                0 <= e < d ==> !group::wants(
                    sorted[#[trigger] ((turn + e) % (sorted.len() as int))],
                    all[n as int].0,
                )
        }),
    ensures
        ({
            let (owners, turn) = dealt(all, sorted, n);
            let k = (turn + d) % (sorted.len() as int);
            dealt(all, sorted, n + 1) == (owners.push(Some(k)), (k + 1) % (sorted.len() as int))
        }),
{
    let turn = dealt(all, sorted, n).1;
    lemma_goes_round(sorted, all[n as int].0, turn, 0, d);
}

proof fn lemma_goes_round(sorted: Seq<Member>, topic: Seq<char>, start: int, e: int, d: int)
    requires
        0 <= e <= d < sorted.len(),
        group::wants(sorted[(start + d) % (sorted.len() as int)], topic),
        forall|x: int|
            0 <= x < d ==> !group::wants(
                sorted[#[trigger] ((start + x) % (sorted.len() as int))],
                topic,
            ),
    ensures
        next_wanting(sorted, topic, start, e) == Some((start + d) % (sorted.len() as int)),
    decreases d - e,
{
    if e < d {
        assert(!group::wants(sorted[(start + e) % (sorted.len() as int)], topic));
        lemma_goes_round(sorted, topic, start, e + 1, d);
    }
}

/// Whoever claimed a partition last holds it, and nobody holds what nobody claims.
pub proof fn law_the_last_claim_holds(members: Seq<Member>, slot: (Seq<char>, i32), n: nat)
    requires
        n <= members.len(),
    ensures
        forall|i: int|
            0 <= i < n && (#[trigger] members[i]).owned.contains(slot) && (forall|j: int|
                i < j < n ==> !(#[trigger] members[j]).owned.contains(slot)) ==> current_owner(
                members,
                slot,
                n,
            ) == Some(members[i].id),
        current_owner(members, slot, n) is None <==> forall|i: int|
            0 <= i < n ==> !(#[trigger] members[i]).owned.contains(slot),
    decreases n,
{
    if n > 0 {
        law_the_last_claim_holds(members, slot, (n - 1) as nat);
        assert(members[n - 1] == members[n - 1]);
    }
}

/// The names by which members agree on a strategy.
pub proof fn law_strategies_go_by_their_names()
    ensures
        RangeAssignor.protocol() == "range"@,
        RoundRobinAssignor.protocol() == "roundrobin"@,
        StickyAssignor.protocol() == "sticky"@,
        CooperativeStickyAssignor.protocol() == "cooperative-sticky"@,
{
}

} // verus!
