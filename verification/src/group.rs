//! Consumer group assignment: who gets which partitions.
//!
//! The group's leader computes the assignment and the coordinator only relays it.
//! Every strategy here decides one thing, which member gets each partition, and the
//! members' lists follow from it.
use crate::names;
use vstd::prelude::*;

verus! {

/// A topic and one of its partitions.
#[derive(Debug, PartialEq, Eq, PartialOrd, Ord, Hash)]
pub struct TopicPartition {
    pub topic: String,
    pub partition: i32,
}

impl View for TopicPartition {
    type V = (Seq<char>, i32);

    open spec fn view(&self) -> (Seq<char>, i32) {
        (self.topic@, self.partition)
    }
}

impl Clone for TopicPartition {
    fn clone(&self) -> (copy: Self)
        ensures
            copy@ == self@,
    {
        TopicPartition { topic: self.topic.clone(), partition: self.partition }
    }
}

impl TopicPartition {
    pub fn new(topic: &str, partition: i32) -> (tp: Self)
        ensures
            tp@ == (topic@, partition),
    {
        TopicPartition { topic: topic.to_owned(), partition }
    }

    /// Whether two of them are the same.
    pub fn is(&self, other: &TopicPartition) -> (yes: bool)
        ensures
            yes == (self@ == other@),
    {
        self.partition == other.partition && names::same(self.topic.as_str(), other.topic.as_str())
    }
}

/// What a list of partitions stands for.
pub open spec fn slots_of(list: Seq<TopicPartition>) -> Seq<(Seq<char>, i32)> {
    list.map_values(|tp: TopicPartition| tp@)
}

/// One member's declared interest, as it arrives when the member joins.
#[derive(Debug, PartialEq, Eq)]
pub struct Subscription {
    pub member_id: String,
    /// Topics this member wants, in any order.
    pub topics: Vec<String>,
    /// What this member holds now, for the strategies that try to keep it.
    pub owned: Vec<TopicPartition>,
    /// The generation that `owned` was true in, or -1 if the member did not say. A
    /// claim from below the highest generation in the group is stale.
    pub generation: i32,
}

/// What a [`Subscription`] stands for.
pub ghost struct Member {
    pub id: Seq<char>,
    pub topics: Seq<Seq<char>>,
    pub owned: Seq<(Seq<char>, i32)>,
    pub generation: i32,
}

impl View for Subscription {
    type V = Member;

    open spec fn view(&self) -> Member {
        Member {
            id: self.member_id@,
            topics: names::names_of(self.topics@),
            owned: slots_of(self.owned@),
            generation: self.generation,
        }
    }
}

/// What a list of members stands for.
pub open spec fn members_of(list: Seq<Subscription>) -> Seq<Member> {
    list.map_values(|m: Subscription| m@)
}

/// How many partitions each topic has, in the order of the topics' names.
#[derive(Debug)]
pub struct PartitionCounts {
    entries: Vec<(String, i32)>,
}

/// Whether names stand in ascending order, each once.
pub open spec fn ascending(list: Seq<(Seq<char>, i32)>) -> bool {
    forall|i: int, j: int|
        0 <= i < j < list.len() ==> names::before((#[trigger] list[i]).0, (#[trigger] list[j]).0)
}

/// The list with `name` set to `count`, at its place in the order.
pub open spec fn with_count(
    list: Seq<(Seq<char>, i32)>,
    name: Seq<char>,
    count: i32,
    i: int,
) -> Seq<(Seq<char>, i32)>
    decreases list.len() - i,
{
    if i >= list.len() || names::before(name, list[i].0) {
        list.insert(i, (name, count))
    } else if list[i].0 == name {
        list.update(i, (name, count))
    } else {
        with_count(list, name, count, i + 1)
    }
}

impl PartitionCounts {
    pub closed spec fn view(&self) -> Seq<(Seq<char>, i32)> {
        self.entries@.map_values(|e: (String, i32)| (e.0@, e.1))
    }

    /// Whether the topics stand in the order of their names, each once.
    pub open spec fn well_formed(&self) -> bool {
        ascending(self.view())
    }

    /// No topics.
    pub fn new() -> (counts: Self)
        ensures
            counts.well_formed(),
            counts.view() == Seq::<(Seq<char>, i32)>::empty(),
    {
        let counts = PartitionCounts { entries: Vec::new() };
        assert(counts.view() =~= Seq::empty());
        counts
    }

    /// Sets how many partitions a topic has.
    pub fn insert(&mut self, topic: &str, count: i32)
        requires
            old(self).well_formed(),
        ensures
            final(self).well_formed(),
            final(self).view() == with_count(old(self).view(), topic@, count, 0),
    {
        let ghost list = self.view();
        let mut i: usize = 0;
        while i < self.entries.len() && !names::is_before(topic, self.entries[i].0.as_str())
            invariant
                self.view() == list,
                old(self).view() == list,
                ascending(list),
                i <= self.entries@.len(),
                forall|k: int| 0 <= k < i ==> names::before((#[trigger] list[k]).0, topic@),
                with_count(list, topic@, count, 0) == with_count(list, topic@, count, i as int),
            decreases self.entries@.len() - i,
        {
            assert(list[i as int].0 == self.entries@[i as int].0@);
            if names::same(topic, self.entries[i].0.as_str()) {
                self.entries[i] = (topic.to_owned(), count);
                proof {
                    assert(self.view() =~= list.update(i as int, (topic@, count)));
                }
                return;
            }
            proof {
                names::law_names_are_ordered(topic@, list[i as int].0);
            }
            i = i + 1;
        }
        self.entries.insert(i, (topic.to_owned(), count));
        proof {
            let now = list.insert(i as int, (topic@, count));
            assert(self.view() =~= now);
            assert forall|a: int, b: int| 0 <= a < b < now.len() implies names::before(
                (#[trigger] now[a]).0,
                (#[trigger] now[b]).0,
            ) by {
                if a == i {
                    assert(now[b] == list[b - 1]);
                    if b - 1 > i {
                        names::law_order_is_transitive(topic@, list[i as int].0, list[b - 1].0);
                    }
                } else if a < i && b > i {
                    assert(now[a] == list[a]);
                    assert(now[b] == list[b - 1]);
                } else if a < i {
                    assert(now[a] == list[a]);
                    if b < i {
                        assert(now[b] == list[b]);
                    }
                } else {
                    assert(now[a] == list[a - 1]);
                    assert(now[b] == list[b - 1]);
                }
            }
        }
    }

    /// The topics in the order of their names, each with its number of partitions.
    pub fn entries(&self) -> (entries: &Vec<(String, i32)>)
        ensures
            entries@.len() == self.view().len(),
            forall|i: int|
                0 <= i < entries@.len() ==> self.view()[i] == (
                    (#[trigger] entries@[i]).0@,
                    entries@[i].1,
                ),
    {
        &self.entries
    }

    /// How many partitions a topic has.
    pub fn get(&self, topic: &str) -> (count: Option<i32>)
        requires
            self.well_formed(),
        ensures
            match count {
                Some(n) => self.view().contains((topic@, n)),
                None => forall|n: i32| !self.view().contains((topic@, n)),
            },
    {
        let ghost list = self.view();
        let mut i: usize = 0;
        while i < self.entries.len()
            invariant
                list == self.view(),
                i <= self.entries@.len(),
                forall|k: int| 0 <= k < i ==> (#[trigger] list[k]).0 != topic@,
            decreases self.entries@.len() - i,
        {
            assert(list[i as int] == (self.entries@[i as int].0@, self.entries@[i as int].1));
            if names::same(topic, self.entries[i].0.as_str()) {
                return Some(self.entries[i].1);
            }
            i = i + 1;
        }
        None
    }
}

/// The partitions of one topic, in order.
pub open spec fn topic_slots(topic: Seq<char>, count: i32) -> Seq<(Seq<char>, i32)> {
    Seq::new(
        (if count > 0 {
            count as int
        } else {
            0
        }) as nat,
        |p: int| (topic, p as i32),
    )
}

/// The partitions of the first `n` topics, topic by topic and in order.
pub open spec fn all_slots(topics: Seq<(Seq<char>, i32)>, n: nat) -> Seq<(Seq<char>, i32)>
    decreases n,
{
    if n == 0 {
        Seq::empty()
    } else {
        all_slots(topics, (n - 1) as nat) + topic_slots(topics[n - 1].0, topics[n - 1].1)
    }
}

/// Every partition there is, topic by topic and in order.
pub open spec fn every_slot(topics: Seq<(Seq<char>, i32)>) -> Seq<(Seq<char>, i32)> {
    all_slots(topics, topics.len())
}

impl PartitionCounts {
    /// Every partition there is, topic by topic and in order.
    pub fn partitions(&self) -> (all: Vec<TopicPartition>)
        ensures
            slots_of(all@) == every_slot(self.view()),
    {
        let ghost topics = self.view();
        let mut all: Vec<TopicPartition> = Vec::new();
        let mut i: usize = 0;
        assert(slots_of(all@) =~= Seq::empty());
        while i < self.entries.len()
            invariant
                topics == self.view(),
                topics.len() == self.entries@.len(),
                i <= self.entries@.len(),
                slots_of(all@) == all_slots(topics, i as nat),
            decreases self.entries@.len() - i,
        {
            let name = self.entries[i].0.as_str();
            let count: i32 = self.entries[i].1;
            let ghost before = slots_of(all@);
            let ghost slots = topic_slots(name@, count);
            let mut p: i32 = 0;
            assert(before + slots.take(0) =~= before);
            while p < count
                invariant
                    0 <= p,
                    count > 0 ==> p <= count,
                    count <= 0 ==> p == 0,
                    slots == topic_slots(name@, count),
                    slots_of(all@) == before + slots.take(p as int),
                decreases count - p,
            {
                let ghost was = slots_of(all@);
                all.push(TopicPartition::new(name, p));
                assert(slots_of(all@) =~= was.push((name@, p)));
                assert(slots[p as int] == (name@, p));
                assert(was.push((name@, p)) =~= before + slots.take(p + 1));
                p = p + 1;
            }
            assert(slots.take(p as int) =~= slots);
            assert(topics[i as int] == (name@, count));
            i = i + 1;
        }
        all
    }
}

/// Whether a member subscribed to a topic.
pub open spec fn wants(member: Member, topic: Seq<char>) -> bool {
    member.topics.contains(topic)
}

/// Where a member with this id goes among the first `n` of an ordered list: behind
/// everyone whose id does not come after it.
pub open spec fn place(sorted: Seq<Member>, id: Seq<char>, n: int) -> int
    decreases n,
{
    if n > 0 && names::before(id, sorted[n - 1].id) {
        place(sorted, id, n - 1)
    } else {
        n
    }
}

/// The first `n` members in the order of their ids. Members with the same id keep
/// their order.
pub open spec fn in_order(members: Seq<Member>, n: nat) -> Seq<Member>
    decreases n,
{
    if n == 0 {
        Seq::empty()
    } else {
        let earlier = in_order(members, (n - 1) as nat);
        earlier.insert(
            place(earlier, members[n - 1].id, earlier.len() as int),
            members[n - 1],
        )
    }
}

/// All members in the order of their ids.
pub open spec fn ordered(members: Seq<Member>) -> Seq<Member> {
    in_order(members, members.len())
}

/// The members that a list of indices stands for.
pub open spec fn at_indices(members: Seq<Member>, order: Seq<usize>) -> Seq<Member> {
    order.map_values(|i: usize| members[i as int])
}

proof fn lemma_place(sorted: Seq<Member>, id: Seq<char>, n: int)
    requires
        0 <= n <= sorted.len(),
    ensures
        0 <= place(sorted, id, n) <= n,
    decreases n,
{
    if n > 0 && names::before(id, sorted[n - 1].id) {
        lemma_place(sorted, id, n - 1);
    }
}

/// The members' indices in the order of their ids.
pub(crate) fn sorted_indices(members: &[Subscription]) -> (order: Vec<usize>)
    ensures
        order@.len() == members@.len(),
        forall|k: int| 0 <= k < order@.len() ==> (#[trigger] order@[k]) < members@.len(),
        at_indices(members_of(members@), order@) == ordered(members_of(members@)),
        ids_ascend(ordered(members_of(members@))),
{
    let ghost views = members_of(members@);
    let mut order: Vec<usize> = Vec::new();
    let mut i: usize = 0;
    assert(at_indices(views, order@) =~= Seq::empty());
    while i < members.len()
        invariant
            views == members_of(members@),
            i <= members@.len(),
            order@.len() == i,
            forall|k: int| 0 <= k < order@.len() ==> (#[trigger] order@[k]) < members@.len(),
            at_indices(views, order@) == in_order(views, i as nat),
        decreases members@.len() - i,
    {
        let id = members[i].member_id.as_str();
        let ghost sorted = at_indices(views, order@);
        let mut at: usize = order.len();
        assert(views[i as int].id == id@);
        while at > 0 && names::is_before(id, members[order[at - 1]].member_id.as_str())
            invariant
                views == members_of(members@),
                at <= order@.len(),
                sorted == at_indices(views, order@),
                forall|k: int| 0 <= k < order@.len() ==> (#[trigger] order@[k]) < members@.len(),
                place(sorted, id@, order@.len() as int) == place(sorted, id@, at as int),
            decreases at,
        {
            assert(sorted[at - 1] == members@[order@[at - 1] as int]@);
            at = at - 1;
        }
        proof {
            if at > 0 {
                assert(sorted[at - 1] == members@[order@[at - 1] as int]@);
            }
        }
        order.insert(at, i);
        assert(at_indices(views, order@) =~= sorted.insert(at as int, views[i as int]));
        i = i + 1;
    }
    proof {
        law_members_are_ordered(views, views.len());
    }
    order
}

/// Whether no id comes before one that stands ahead of it.
pub open spec fn ids_ascend(sorted: Seq<Member>) -> bool {
    forall|i: int, j: int|
        0 <= i <= j < sorted.len() ==> !names::before(
            (#[trigger] sorted[j]).id,
            (#[trigger] sorted[i]).id,
        )
}

/// Whether a list of members holds one with this id.
pub open spec fn has_id(members: Seq<Member>, id: Seq<char>) -> bool {
    exists|k: int| 0 <= k < members.len() && (#[trigger] members[k]).id == id
}

proof fn lemma_not_before_chain(a: Seq<char>, b: Seq<char>, c: Seq<char>)
    requires
        !names::before(b, a),
        !names::before(c, b),
    ensures
        !names::before(c, a),
{
    names::law_names_are_ordered(a, b);
    names::law_names_are_ordered(b, c);
    if names::before(c, a) {
        if a != b {
            names::law_order_is_transitive(c, a, b);
        }
    }
}

proof fn lemma_place_splits(sorted: Seq<Member>, id: Seq<char>, n: int)
    requires
        0 <= n <= sorted.len(),
        ids_ascend(sorted),
    ensures
        ({
            let at = place(sorted, id, n);
            &&& forall|k: int| 0 <= k < at ==> !names::before(id, (#[trigger] sorted[k]).id)
            &&& forall|k: int| at <= k < n ==> names::before(id, (#[trigger] sorted[k]).id)
        }),
    decreases n,
{
    lemma_place(sorted, id, n);
    if n > 0 {
        if names::before(id, sorted[n - 1].id) {
            lemma_place_splits(sorted, id, n - 1);
        } else {
            assert forall|k: int| 0 <= k < n implies !names::before(
                id,
                (#[trigger] sorted[k]).id,
            ) by {
                lemma_not_before_chain(sorted[k].id, sorted[n - 1].id, id);
            }
        }
    }
}

/// Ordering the members keeps every one of them, and leaves their ids ascending.
pub proof fn law_members_are_ordered(members: Seq<Member>, n: nat)
    requires
        n <= members.len(),
    ensures
        in_order(members, n).len() == n,
        ids_ascend(in_order(members, n)),
        forall|m: Member|
            #[trigger] in_order(members, n).contains(m) <==> members.take(n as int).contains(m),
    decreases n,
{
    if n > 0 {
        let earlier = in_order(members, (n - 1) as nat);
        law_members_are_ordered(members, (n - 1) as nat);
        let m = members[n - 1];
        let at = place(earlier, m.id, earlier.len() as int);
        lemma_place(earlier, m.id, earlier.len() as int);
        lemma_place_splits(earlier, m.id, earlier.len() as int);
        let now = in_order(members, n);
        assert(now == earlier.insert(at, m));
        assert forall|i: int, j: int| 0 <= i <= j < now.len() implies !names::before(
            (#[trigger] now[j]).id,
            (#[trigger] now[i]).id,
        ) by {
            names::law_names_are_ordered(now[i].id, now[j].id);
            if i < at && j == at {
                assert(now[i] == earlier[i]);
            } else if i == at && j > at {
                assert(now[j] == earlier[j - 1]);
            } else if i < at && j > at {
                assert(now[i] == earlier[i] && now[j] == earlier[j - 1]);
            } else if j < at {
                assert(now[i] == earlier[i] && now[j] == earlier[j]);
            } else if i > at {
                assert(now[i] == earlier[i - 1] && now[j] == earlier[j - 1]);
            }
        }
        assert(members.take(n as int) =~= members.take(n - 1).push(m));
        assert forall|x: Member| #[trigger] now.contains(x) <==> members.take(n as int).contains(
            x,
        ) by {
            let longer = members.take(n as int);
            if now.contains(x) {
                let k = choose|k: int| 0 <= k < now.len() && now[k] == x;
                if k == at {
                    assert(longer[n - 1] == x);
                } else {
                    assert(earlier[if k < at {
                        k
                    } else {
                        k - 1
                    }] == x);
                    assert(earlier.contains(x));
                    let prefix = members.take(n - 1);
                    let t = choose|t: int| 0 <= t < prefix.len() && prefix[t] == x;
                    assert(longer[t] == x);
                }
            }
            if longer.contains(x) {
                let t = choose|t: int| 0 <= t < longer.len() && longer[t] == x;
                if t == n - 1 {
                    assert(now[at] == x);
                } else {
                    assert(members.take(n - 1)[t] == x);
                    assert(earlier.contains(x));
                    let k = choose|k: int| 0 <= k < earlier.len() && earlier[k] == x;
                    assert(now[if k < at {
                        k
                    } else {
                        k + 1
                    }] == x);
                }
            }
        }
    }
}

/// The ids of the ordered members are those of the members.
pub proof fn lemma_same_ids(members: Seq<Member>, id: Seq<char>)
    ensures
        has_id(ordered(members), id) == has_id(members, id),
{
    law_members_are_ordered(members, members.len());
    let sorted = ordered(members);
    assert(members.take(members.len() as int) =~= members);
    if has_id(sorted, id) {
        let k = choose|k: int| 0 <= k < sorted.len() && (#[trigger] sorted[k]).id == id;
        assert(sorted.contains(sorted[k]));
        let t = choose|t: int| 0 <= t < members.len() && members[t] == sorted[k];
        assert(members[t].id == id);
    }
    if has_id(members, id) {
        let t = choose|t: int| 0 <= t < members.len() && (#[trigger] members[t]).id == id;
        assert(members.contains(members[t]));
        assert(sorted.contains(members[t]));
        let k = choose|k: int| 0 <= k < sorted.len() && sorted[k] == members[t];
        assert(sorted[k].id == id);
    }
}

/// Whether no two members share an id.
pub open spec fn ids_differ(members: Seq<Member>) -> bool {
    forall|i: int, j: int|
        0 <= i < members.len() && 0 <= j < members.len() && i != j ==> (#[trigger] members[i]).id
            != (#[trigger] members[j]).id
}

/// Whether two lists hold the same members, in whatever order.
pub open spec fn same_members(one: Seq<Member>, other: Seq<Member>) -> bool {
    &&& ids_differ(one)
    &&& ids_differ(other)
    &&& one.len() == other.len()
    &&& forall|m: Member| #[trigger] one.contains(m) <==> other.contains(m)
}

/// Ordering members leaves their ids distinct.
pub proof fn lemma_ordered_ids_differ(members: Seq<Member>)
    requires
        ids_differ(members),
    ensures
        ids_differ(ordered(members)),
{
    let sorted = ordered(members);
    law_members_are_ordered(members, members.len());
    assert(members.take(members.len() as int) =~= members);
    assert(members.no_duplicates());
    members.unique_seq_to_set();
    assert(sorted.to_set() =~= members.to_set());
    sorted.lemma_no_dup_set_cardinality();
    assert forall|i: int, j: int|
        0 <= i < sorted.len() && 0 <= j < sorted.len() && i != j implies (#[trigger] sorted[i]).id
        != (#[trigger] sorted[j]).id by {
        assert(sorted.contains(sorted[i]) && sorted.contains(sorted[j]));
        let a = choose|a: int| 0 <= a < members.len() && members[a] == sorted[i];
        let b = choose|b: int| 0 <= b < members.len() && members[b] == sorted[j];
        assert(members[a].id != members[b].id);
    }
}

proof fn lemma_ascending_is_unique(one: Seq<Member>, other: Seq<Member>, i: int)
    requires
        same_members(one, other),
        ids_ascend(one),
        ids_ascend(other),
        0 <= i < one.len(),
        forall|k: int| 0 <= k < i ==> one[k] == other[k],
    ensures
        one[i] == other[i],
{
    assert(one.contains(one[i]) && other.contains(one[i]));
    assert(other.contains(other[i]) && one.contains(other[i]));
    let j = choose|j: int| 0 <= j < other.len() && other[j] == one[i];
    let k = choose|k: int| 0 <= k < one.len() && one[k] == other[i];
    if j < i {
        assert(one[j].id != one[i].id);
    }
    if k < i {
        assert(other[k].id != other[i].id);
    }
    if j > i && k > i {
        names::law_names_are_ordered(one[i].id, other[i].id);
        assert(!names::before(other[j].id, other[i].id));
        assert(!names::before(one[k].id, one[i].id));
        assert(one[i].id != one[k].id);
    }
}

proof fn lemma_ascending_prefix(one: Seq<Member>, other: Seq<Member>, n: nat)
    requires
        same_members(one, other),
        ids_ascend(one),
        ids_ascend(other),
        n <= one.len(),
    ensures
        forall|k: int| 0 <= k < n ==> one[k] == other[k],
    decreases n,
{
    if n > 0 {
        lemma_ascending_prefix(one, other, (n - 1) as nat);
        lemma_ascending_is_unique(one, other, n - 1);
    }
}

/// In whatever order the members of a group arrive, they are ordered alike.
pub proof fn law_the_order_of_members_is_free(one: Seq<Member>, other: Seq<Member>)
    requires
        same_members(one, other),
    ensures
        ordered(one) == ordered(other),
{
    let a = ordered(one);
    let b = ordered(other);
    law_members_are_ordered(one, one.len());
    law_members_are_ordered(other, other.len());
    assert(one.take(one.len() as int) =~= one);
    assert(other.take(other.len() as int) =~= other);
    lemma_ordered_ids_differ(one);
    lemma_ordered_ids_differ(other);
    assert forall|m: Member| #[trigger] a.contains(m) <==> b.contains(m) by {
        assert(a.contains(m) <==> one.contains(m));
        assert(b.contains(m) <==> other.contains(m));
    }
    lemma_ascending_prefix(a, b, a.len());
    assert(a =~= b);
}

/// Of the first `n` partitions, those whose owner, an index into the ordered members,
/// has this id.
pub open spec fn share(
    all: Seq<(Seq<char>, i32)>,
    owners: Seq<Option<int>>,
    sorted: Seq<Member>,
    id: Seq<char>,
    n: nat,
) -> Seq<(Seq<char>, i32)>
    decreases n,
{
    if n == 0 {
        Seq::empty()
    } else {
        let earlier = share(all, owners, sorted, id, (n - 1) as nat);
        match owners[n - 1] {
            Some(k) => if sorted[k].id == id {
                earlier.push(all[n - 1])
            } else {
                earlier
            },
            None => earlier,
        }
    }
}

/// What every member gets, in the order of the partitions: nothing, for a member that
/// owns none of them.
pub open spec fn shares(
    all: Seq<(Seq<char>, i32)>,
    owners: Seq<Option<int>>,
    sorted: Seq<Member>,
) -> Map<Seq<char>, Seq<(Seq<char>, i32)>> {
    Map::new(
        |id: Seq<char>| has_id(sorted, id),
        |id: Seq<char>| share(all, owners, sorted, id, all.len()),
    )
}

/// The owners that a list of indices stands for.
pub open spec fn owners_of(owners: Seq<Option<usize>>) -> Seq<Option<int>> {
    owners.map_values(
        |o: Option<usize>|
            match o {
                Some(k) => Some(k as int),
                None => None,
            },
    )
}

/// What the leader decided: each member's id, and the partitions it owns.
#[derive(Debug)]
pub struct Assignment {
    entries: Vec<(String, Vec<TopicPartition>)>,
}

/// What the entries of an assignment stand for.
pub open spec fn entries_of(entries: Seq<(String, Vec<TopicPartition>)>) -> Seq<
    (Seq<char>, Seq<(Seq<char>, i32)>),
> {
    entries.map_values(|e: (String, Vec<TopicPartition>)| (e.0@, slots_of(e.1@)))
}

/// Whether the entries hold one for this id.
pub open spec fn has_entry(list: Seq<(Seq<char>, Seq<(Seq<char>, i32)>)>, id: Seq<char>) -> bool {
    exists|i: int| 0 <= i < list.len() && (#[trigger] list[i]).0 == id
}

/// The place of the entry for this id.
pub open spec fn entry_at(list: Seq<(Seq<char>, Seq<(Seq<char>, i32)>)>, id: Seq<char>) -> int {
    choose|i: int| 0 <= i < list.len() && (#[trigger] list[i]).0 == id
}

/// Whether the ids ascend, each once.
pub open spec fn entries_ascend(list: Seq<(Seq<char>, Seq<(Seq<char>, i32)>)>) -> bool {
    forall|i: int, j: int|
        0 <= i < j < list.len() ==> names::before((#[trigger] list[i]).0, (#[trigger] list[j]).0)
}

impl View for Assignment {
    type V = Map<Seq<char>, Seq<(Seq<char>, i32)>>;

    closed spec fn view(&self) -> Map<Seq<char>, Seq<(Seq<char>, i32)>> {
        let list = entries_of(self.entries@);
        Map::new(
            |id: Seq<char>| has_entry(list, id),
            |id: Seq<char>| list[entry_at(list, id)].1,
        )
    }
}

proof fn lemma_entry(a: &Assignment, i: int)
    requires
        a.well_formed(),
        0 <= i < a.entries@.len(),
    ensures
        a@.dom().contains(a.entries@[i].0@),
        a@[a.entries@[i].0@] == slots_of(a.entries@[i].1@),
{
    let list = entries_of(a.entries@);
    let id = a.entries@[i].0@;
    assert(list[i].0 == id);
    let j = entry_at(list, id);
    if j != i {
        names::law_names_are_ordered(list[i].0, list[j].0);
    }
}

impl Assignment {
    /// Whether the members stand in the order of their ids, each once.
    pub closed spec fn well_formed(&self) -> bool {
        entries_ascend(entries_of(self.entries@))
    }

    /// The partitions of a member, `None` for one that the assignment does not name.
    pub fn get(&self, member: &str) -> (partitions: Option<&Vec<TopicPartition>>)
        requires
            self.well_formed(),
        ensures
            match partitions {
                Some(v) => self@.dom().contains(member@) && slots_of(v@) == self@[member@],
                None => !self@.dom().contains(member@),
            },
    {
        let ghost list = entries_of(self.entries@);
        let mut i: usize = 0;
        while i < self.entries.len()
            invariant
                self.well_formed(),
                list == entries_of(self.entries@),
                i <= self.entries@.len(),
                forall|k: int| 0 <= k < i ==> (#[trigger] list[k]).0 != member@,
            decreases self.entries@.len() - i,
        {
            assert(list[i as int].0 == self.entries@[i as int].0@);
            if names::same(member, self.entries[i].0.as_str()) {
                proof {
                    lemma_entry(self, i as int);
                }
                return Some(&self.entries[i].1);
            }
            i = i + 1;
        }
        None
    }

    /// Whether the assignment names a member.
    pub fn contains_key(&self, member: &str) -> (yes: bool)
        requires
            self.well_formed(),
        ensures
            yes == self@.dom().contains(member@),
    {
        self.get(member).is_some()
    }

    /// The members in the order of their ids, each with its partitions.
    pub fn entries(&self) -> (entries: &Vec<(String, Vec<TopicPartition>)>)
        requires
            self.well_formed(),
        ensures
            entries_ascend(entries_of(entries@)),
            forall|i: int|
                0 <= i < entries@.len() ==> self@.dom().contains((#[trigger] entries@[i]).0@)
                    && self@[entries@[i].0@] == slots_of(entries@[i].1@),
            forall|id: Seq<char>|
                self@.dom().contains(id) <==> #[trigger] has_entry(entries_of(entries@), id),
    {
        proof {
            assert forall|i: int| 0 <= i < self.entries@.len() implies self@.dom().contains(
                (#[trigger] self.entries@[i]).0@,
            ) && self@[self.entries@[i].0@] == slots_of(self.entries@[i].1@) by {
                lemma_entry(self, i);
            }
        }
        &self.entries
    }
}

/// A member's share, partition by partition.
fn collect_share(
    members: &[Subscription],
    order: &Vec<usize>,
    all: &Vec<TopicPartition>,
    owners: &Vec<Option<usize>>,
    id: &str,
) -> (out: Vec<TopicPartition>)
    requires
        forall|k: int| 0 <= k < order@.len() ==> (#[trigger] order@[k]) < members@.len(),
        owners@.len() == all@.len(),
        forall|i: int|
            0 <= i < owners@.len() ==> ((#[trigger] owners@[i]) matches Some(k) ==> k
                < order@.len()),
    ensures
        slots_of(out@) == share(
            slots_of(all@),
            owners_of(owners@),
            at_indices(members_of(members@), order@),
            id@,
            all@.len(),
        ),
{
    let ghost slots = slots_of(all@);
    let ghost who = owners_of(owners@);
    let ghost sorted = at_indices(members_of(members@), order@);
    let mut out: Vec<TopicPartition> = Vec::new();
    let mut i: usize = 0;
    assert(slots_of(out@) =~= Seq::empty());
    while i < all.len()
        invariant
            forall|k: int| 0 <= k < order@.len() ==> (#[trigger] order@[k]) < members@.len(),
            owners@.len() == all@.len(),
            forall|i: int|
                0 <= i < owners@.len() ==> ((#[trigger] owners@[i]) matches Some(k) ==> k
                    < order@.len()),
            slots == slots_of(all@),
            who == owners_of(owners@),
            sorted == at_indices(members_of(members@), order@),
            i <= all@.len(),
            slots_of(out@) == share(slots, who, sorted, id@, i as nat),
        decreases all@.len() - i,
    {
        let ghost was = slots_of(out@);
        assert(slots[i as int] == all@[i as int]@);
        match owners[i] {
            Some(k) => {
                assert(who[i as int] == Some(k as int));
                assert(sorted[k as int].id == members@[order@[k as int] as int].member_id@);
                if names::same(members[order[k]].member_id.as_str(), id) {
                    out.push(all[i].clone());
                    assert(slots_of(out@) =~= was.push(slots[i as int]));
                }
            },
            None => {
                assert(who[i as int] is None);
            },
        }
        i = i + 1;
    }
    out
}

/// The assignment that owners make: every member appears, with its share.
pub(crate) fn publish(
    members: &[Subscription],
    order: &Vec<usize>,
    all: &Vec<TopicPartition>,
    owners: &Vec<Option<usize>>,
) -> (assignment: Assignment)
    requires
        forall|k: int| 0 <= k < order@.len() ==> (#[trigger] order@[k]) < members@.len(),
        ids_ascend(at_indices(members_of(members@), order@)),
        owners@.len() == all@.len(),
        forall|i: int|
            0 <= i < owners@.len() ==> ((#[trigger] owners@[i]) matches Some(k) ==> k
                < order@.len()),
    ensures
        assignment.well_formed(),
        assignment@ == shares(
            slots_of(all@),
            owners_of(owners@),
            at_indices(members_of(members@), order@),
        ),
{
    let ghost slots = slots_of(all@);
    let ghost who = owners_of(owners@);
    let ghost sorted = at_indices(members_of(members@), order@);
    let mut entries: Vec<(String, Vec<TopicPartition>)> = Vec::new();
    let mut k: usize = 0;
    while k < order.len()
        invariant
            forall|k: int| 0 <= k < order@.len() ==> (#[trigger] order@[k]) < members@.len(),
            owners@.len() == all@.len(),
            forall|i: int|
                0 <= i < owners@.len() ==> ((#[trigger] owners@[i]) matches Some(k) ==> k
                    < order@.len()),
            slots == slots_of(all@),
            who == owners_of(owners@),
            sorted == at_indices(members_of(members@), order@),
            ids_ascend(sorted),
            k <= order@.len(),
            entries_ascend(entries_of(entries@)),
            entries@.len() > 0 ==> k > 0 && entries@.last().0@ == sorted[k - 1].id,
            entries@.len() == 0 ==> k == 0,
            forall|e: int|
                0 <= e < entries@.len() ==> has_id(sorted, (#[trigger] entries@[e]).0@)
                    && slots_of(entries@[e].1@) == share(
                    slots,
                    who,
                    sorted,
                    entries@[e].0@,
                    all@.len(),
                ),
            forall|i: int|
                0 <= i < k ==> has_entry(entries_of(entries@), (#[trigger] sorted[i]).id),
        decreases order@.len() - k,
    {
        let member = &members[order[k]];
        let id = member.member_id.as_str();
        let ghost list = entries_of(entries@);
        assert(sorted[k as int].id == id@);
        let n: usize = entries.len();
        if n == 0 || !names::same(entries[n - 1].0.as_str(), id) {
            let mine = collect_share(members, order, all, owners, id);
            let ghost slots_mine = slots_of(mine@);
            entries.push((id.to_owned(), mine));
            proof {
                let now = entries_of(entries@);
                assert(now =~= list.push((id@, slots_mine)));
                assert forall|i: int, j: int| 0 <= i < j < now.len() implies names::before(
                    (#[trigger] now[i]).0,
                    (#[trigger] now[j]).0,
                ) by {
                    if j == n {
                        let last = sorted[k - 1].id;
                        assert(list[n - 1].0 == last);
                        names::law_names_are_ordered(last, id@);
                        if i < n - 1 {
                            names::law_order_is_transitive(now[i].0, last, id@);
                        }
                    }
                }
                assert forall|i: int| 0 <= i < k + 1 implies has_entry(
                    now,
                    (#[trigger] sorted[i]).id,
                ) by {
                    if i < k {
                        let e = choose|e: int|
                            0 <= e < list.len() && (#[trigger] list[e]).0 == sorted[i].id;
                        assert(now[e].0 == sorted[i].id);
                    } else {
                        assert(now[n as int].0 == sorted[i].id);
                    }
                }
            }
        } else {
            assert(list[n - 1].0 == id@);
        }
        k = k + 1;
    }
    let assignment = Assignment { entries };
    proof {
        let list = entries_of(entries@);
        let goal = shares(slots, who, sorted);
        assert forall|id: Seq<char>| assignment@.dom().contains(id) <==> #[trigger] goal.dom().contains(
            id,
        ) by {
            if has_entry(list, id) {
                let e = choose|e: int| 0 <= e < list.len() && (#[trigger] list[e]).0 == id;
                assert(entries@[e].0@ == id);
            }
            if has_id(sorted, id) {
                let i = choose|i: int| 0 <= i < sorted.len() && (#[trigger] sorted[i]).id == id;
                assert(has_entry(list, sorted[i].id));
            }
        }
        assert forall|id: Seq<char>| #[trigger] goal.dom().contains(id) implies assignment@[id]
            == goal[id] by {
            assert(has_entry(list, id));
            let e = choose|e: int| 0 <= e < list.len() && (#[trigger] list[e]).0 == id;
            assert(entries@[e].0@ == id);
            lemma_entry(&assignment, e);
        }
        assert(assignment@ =~= goal);
    }
    assignment
}

/// Setting a topic's count sets that topic's, and leaves every other topic with its own.
pub proof fn law_setting_a_count_sets_one_topic(
    list: Seq<(Seq<char>, i32)>,
    name: Seq<char>,
    count: i32,
    other: (Seq<char>, i32),
)
    requires
        ascending(list),
    ensures
        with_count(list, name, count, 0).contains((name, count)),
        other.0 != name ==> (with_count(list, name, count, 0).contains(other) <==> list.contains(
            other,
        )),
        other.0 == name && with_count(list, name, count, 0).contains(other) ==> other.1 == count,
{
    lemma_with_count(list, name, count, 0, other);
}

proof fn lemma_with_count(
    list: Seq<(Seq<char>, i32)>,
    name: Seq<char>,
    count: i32,
    i: int,
    other: (Seq<char>, i32),
)
    requires
        ascending(list),
        0 <= i <= list.len(),
        forall|k: int| 0 <= k < i ==> (#[trigger] list[k]).0 != name,
    ensures
        with_count(list, name, count, i).contains((name, count)),
        other.0 != name ==> (with_count(list, name, count, i).contains(other) <==> list.contains(
            other,
        )),
        other.0 == name && with_count(list, name, count, i).contains(other) ==> other.1 == count,
    decreases list.len() - i,
{
    let now = with_count(list, name, count, i);
    if i >= list.len() || names::before(name, list[i].0) {
        assert(now == list.insert(i, (name, count)));
        assert(now[i] == (name, count));
        assert forall|k: int| i <= k < list.len() implies (#[trigger] list[k]).0 != name by {
            names::law_names_are_ordered(name, list[k].0);
            if k > i {
                assert(names::before(list[i].0, list[k].0));
                names::law_order_is_transitive(name, list[i].0, list[k].0);
            }
        }
        if list.contains(other) {
            let k = choose|k: int| 0 <= k < list.len() && list[k] == other;
            assert(now[if k < i {
                k
            } else {
                k + 1
            }] == other);
        }
        if now.contains(other) && other != (name, count) {
            let k = choose|k: int| 0 <= k < now.len() && now[k] == other;
            assert(list[if k < i {
                k
            } else {
                k - 1
            }] == other);
        }
    } else if list[i].0 == name {
        assert(now[i] == (name, count));
        assert forall|k: int| i < k < list.len() implies (#[trigger] list[k]).0 != name by {
            assert(names::before(list[i].0, list[k].0));
            names::law_names_are_ordered(list[i].0, list[k].0);
        }
        if list.contains(other) && other.0 != name {
            let k = choose|k: int| 0 <= k < list.len() && list[k] == other;
            assert(now[k] == other);
        }
        if now.contains(other) && other != (name, count) {
            let k = choose|k: int| 0 <= k < now.len() && now[k] == other;
            assert(list[k] == other);
        }
    } else {
        lemma_with_count(list, name, count, i + 1, other);
    }
}

/// The partitions there are: of each topic those numbered from zero up to its count, and no
/// others.
pub proof fn law_topics_have_their_partitions(
    topics: Seq<(Seq<char>, i32)>,
    n: nat,
    slot: (Seq<char>, i32),
)
    requires
        n <= topics.len(),
    ensures
        all_slots(topics, n).contains(slot) <==> exists|i: int|
            0 <= i < n && (#[trigger] topics[i]).0 == slot.0 && 0 <= slot.1 < topics[i].1,
    decreases n,
{
    if n > 0 {
        law_topics_have_their_partitions(topics, (n - 1) as nat, slot);
        let earlier = all_slots(topics, (n - 1) as nat);
        let own = topic_slots(topics[n - 1].0, topics[n - 1].1);
        let now = all_slots(topics, n);
        if earlier.contains(slot) {
            let k = choose|k: int| 0 <= k < earlier.len() && earlier[k] == slot;
            assert(now[k] == slot);
        }
        if topics[n - 1].0 == slot.0 && 0 <= slot.1 < topics[n - 1].1 {
            assert(own[slot.1 as int] == slot);
            assert(now[earlier.len() + slot.1 as int] == slot);
        }
        if now.contains(slot) {
            let k = choose|k: int| 0 <= k < now.len() && now[k] == slot;
            if k < earlier.len() {
                assert(earlier[k] == slot);
            } else {
                assert(own[k - earlier.len()] == slot);
                assert(topics[n - 1].0 == slot.0);
            }
        }
    }
}

/// A member's share is exactly the partitions whose owner has its id, in their order.
pub proof fn law_a_share_is_what_a_member_owns(
    all: Seq<(Seq<char>, i32)>,
    owners: Seq<Option<int>>,
    sorted: Seq<Member>,
    id: Seq<char>,
    n: nat,
)
    requires
        n <= all.len(),
        owners.len() == all.len(),
    ensures
        share(all, owners, sorted, id, n) == Seq::new(n, |i: int| i).filter(
            |i: int| owners[i] is Some && sorted[owners[i].unwrap()].id == id,
        ).map_values(|i: int| all[i]),
    decreases n,
{
    reveal(Seq::filter);
    let own = |i: int| owners[i] is Some && sorted[owners[i].unwrap()].id == id;
    let slot = |i: int| all[i];
    let indices = Seq::new(n, |i: int| i);
    if n > 0 {
        law_a_share_is_what_a_member_owns(all, owners, sorted, id, (n - 1) as nat);
        let earlier = Seq::new((n - 1) as nat, |i: int| i);
        assert(indices.drop_last() =~= earlier);
        assert(indices.last() == n - 1);
        if own(n - 1) {
            assert(indices.filter(own) == earlier.filter(own).push(n - 1));
            assert(indices.filter(own).map_values(slot) =~= earlier.filter(own).map_values(
                slot,
            ).push(slot(n - 1)));
        }
    }
    assert(share(all, owners, sorted, id, n) =~= indices.filter(own).map_values(slot));
}

} // verus!
