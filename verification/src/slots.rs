//! A map keyed by topic and partition, in the order of its keys.
use crate::group;
use crate::group::TopicPartition;
use crate::names;
use vstd::prelude::*;

verus! {

/// Values by topic and partition.
#[derive(Debug)]
pub struct SlotMap<V> {
    entries: Vec<(TopicPartition, V)>,
}

/// Whether a key comes before another: by topic, then by partition.
pub open spec fn slot_before(a: (Seq<char>, i32), b: (Seq<char>, i32)) -> bool {
    names::before(a.0, b.0) || (a.0 == b.0 && a.1 < b.1)
}

/// Keys are in a total order.
pub proof fn lemma_slots_ordered(a: (Seq<char>, i32), b: (Seq<char>, i32))
    ensures
        a != b <==> slot_before(a, b) || slot_before(b, a),
        !(slot_before(a, b) && slot_before(b, a)),
{
    names::law_names_are_ordered(a.0, b.0);
}

pub proof fn lemma_slots_transitive(
    a: (Seq<char>, i32),
    b: (Seq<char>, i32),
    c: (Seq<char>, i32),
)
    requires
        slot_before(a, b),
        slot_before(b, c),
    ensures
        slot_before(a, c),
{
    if names::before(a.0, b.0) && names::before(b.0, c.0) {
        names::law_order_is_transitive(a.0, b.0, c.0);
    }
}

/// Whether the keys ascend, each once.
pub open spec fn ascending_keys<V>(list: Seq<(TopicPartition, V)>) -> bool {
    forall|i: int, j: int|
        0 <= i < j < list.len() ==> slot_before((#[trigger] list[i]).0@, (#[trigger] list[j]).0@)
}

/// Whether no key occurs twice.
pub open spec fn distinct_keys<V>(list: Seq<(TopicPartition, V)>) -> bool {
    forall|i: int, j: int|
        0 <= i < j < list.len() ==> (#[trigger] list[i]).0@ != (#[trigger] list[j]).0@
}

proof fn lemma_ascending_distinct<V>(list: Seq<(TopicPartition, V)>)
    requires
        ascending_keys(list),
    ensures
        distinct_keys(list),
{
    assert forall|i: int, j: int| 0 <= i < j < list.len() implies (#[trigger] list[i]).0@ != (
    #[trigger] list[j]).0@ by {
        lemma_slots_ordered(list[i].0@, list[j].0@);
    }
}

/// Whether a key occurs.
pub open spec fn has_key<V>(list: Seq<(TopicPartition, V)>, key: (Seq<char>, i32)) -> bool {
    exists|i: int| 0 <= i < list.len() && (#[trigger] list[i]).0@ == key
}

/// Where a key occurs.
pub open spec fn key_at<V>(list: Seq<(TopicPartition, V)>, key: (Seq<char>, i32)) -> int {
    choose|i: int| 0 <= i < list.len() && (#[trigger] list[i]).0@ == key
}

/// What a list of entries with distinct keys stands for.
pub open spec fn as_map<V>(list: Seq<(TopicPartition, V)>) -> Map<(Seq<char>, i32), V> {
    Map::new(
        |key: (Seq<char>, i32)| has_key(list, key),
        |key: (Seq<char>, i32)| list[key_at(list, key)].1,
    )
}

pub proof fn lemma_at<V>(list: Seq<(TopicPartition, V)>, i: int)
    requires
        distinct_keys(list),
        0 <= i < list.len(),
    ensures
        as_map(list).dom().contains(list[i].0@),
        as_map(list)[list[i].0@] == list[i].1,
{
    let j = key_at(list, list[i].0@);
    assert(has_key(list, list[i].0@));
    assert(list[j].0@ == list[i].0@);
    if j < i {
        assert(list[j].0@ != list[i].0@);
    } else if i < j {
        assert(list[i].0@ != list[j].0@);
    }
}

impl<V> View for SlotMap<V> {
    type V = Map<(Seq<char>, i32), V>;

    closed spec fn view(&self) -> Map<(Seq<char>, i32), V> {
        as_map(self.entries@)
    }
}

impl<V> SlotMap<V> {
    /// Whether the keys ascend, each once.
    pub closed spec fn well_formed(&self) -> bool {
        ascending_keys(self.entries@)
    }

    pub fn new() -> (map: Self)
        ensures
            map.well_formed(),
            map@ == Map::<(Seq<char>, i32), V>::empty(),
    {
        let map = SlotMap { entries: Vec::new() };
        assert(map@ =~= Map::empty());
        map
    }

    fn find(&self, topic: &str, partition: i32) -> (found: Option<usize>)
        ensures
            match found {
                Some(i) => i < self.entries@.len() && self.entries@[i as int].0@ == (
                    topic@,
                    partition,
                ),
                None => !has_key(self.entries@, (topic@, partition)),
            },
    {
        let mut i: usize = 0;
        while i < self.entries.len()
            invariant
                i <= self.entries@.len(),
                forall|k: int|
                    0 <= k < i ==> (#[trigger] self.entries@[k]).0@ != (topic@, partition),
            decreases self.entries@.len() - i,
        {
            let tp = &self.entries[i].0;
            if tp.partition == partition && names::same(tp.topic.as_str(), topic) {
                return Some(i);
            }
            i = i + 1;
        }
        None
    }

    /// The value of a key.
    pub fn get(&self, topic: &str, partition: i32) -> (value: Option<&V>)
        requires
            self.well_formed(),
        ensures
            match value {
                Some(v) => self@.dom().contains((topic@, partition)) && *v == self@[(
                    topic@,
                    partition,
                )],
                None => !self@.dom().contains((topic@, partition)),
            },
    {
        match self.find(topic, partition) {
            None => None,
            Some(i) => {
                proof {
                    lemma_ascending_distinct(self.entries@);
                    lemma_at(self.entries@, i as int);
                }
                Some(&self.entries[i].1)
            },
        }
    }

    /// Whether a key is there.
    pub fn contains(&self, topic: &str, partition: i32) -> (yes: bool)
        ensures
            yes == self@.dom().contains((topic@, partition)),
    {
        self.find(topic, partition).is_some()
    }

    /// Sets the value of a key.
    pub fn insert(&mut self, topic: &str, partition: i32, value: V)
        requires
            old(self).well_formed(),
        ensures
            final(self).well_formed(),
            final(self)@ == old(self)@.insert((topic@, partition), value),
    {
        let ghost before = self.entries@;
        let ghost key = (topic@, partition);
        proof {
            lemma_ascending_distinct(before);
        }
        match self.find(topic, partition) {
            Some(i) => {
                self.entries[i] = (TopicPartition::new(topic, partition), value);
                let ghost now = self.entries@;
                proof {
                    assert forall|a: int, b: int| 0 <= a < b < now.len() implies slot_before(
                        (#[trigger] now[a]).0@,
                        (#[trigger] now[b]).0@,
                    ) by {
                        assert(before[a].0@ == now[a].0@ && before[b].0@ == now[b].0@);
                    }
                    lemma_ascending_distinct(now);
                    lemma_same_but_one(before, now, i as int, key, value);
                }
            },
            None => {
                let mut at: usize = self.entries.len();
                while at > 0 && precedes(topic, partition, &self.entries[at - 1].0)
                    invariant
                        self.entries@ == before,
                        at <= before.len(),
                        key == (topic@, partition),
                        forall|k: int|
                            at <= k < before.len() ==> slot_before(key, (#[trigger] before[k]).0@),
                    decreases at,
                {
                    at = at - 1;
                }
                self.entries.insert(at, (TopicPartition::new(topic, partition), value));
                let ghost now = self.entries@;
                proof {
                    if at > 0 {
                        lemma_slots_ordered(before[at - 1].0@, key);
                    }
                    assert forall|a: int, b: int| 0 <= a < b < now.len() implies slot_before(
                        (#[trigger] now[a]).0@,
                        (#[trigger] now[b]).0@,
                    ) by {
                        if a < at && b == at {
                            assert(now[a] == before[a]);
                            if a < at - 1 {
                                lemma_slots_transitive(before[a].0@, before[at - 1].0@, key);
                            }
                        } else if a < at && b > at {
                            assert(now[a] == before[a] && now[b] == before[b - 1]);
                        } else if a == at {
                            assert(now[b] == before[b - 1]);
                        } else if a > at {
                            assert(now[a] == before[a - 1] && now[b] == before[b - 1]);
                        } else {
                            assert(now[a] == before[a] && now[b] == before[b]);
                        }
                    }
                    lemma_ascending_distinct(now);
                    lemma_one_more(before, now, at as int, key, value);
                }
            },
        }
    }

    /// Takes a key out, and gives its value back.
    pub fn remove(&mut self, topic: &str, partition: i32) -> (value: Option<V>)
        requires
            old(self).well_formed(),
        ensures
            final(self).well_formed(),
            final(self)@ == old(self)@.remove((topic@, partition)),
            value == if old(self)@.dom().contains((topic@, partition)) {
                Some(old(self)@[(topic@, partition)])
            } else {
                None
            },
    {
        let ghost before = self.entries@;
        let ghost key = (topic@, partition);
        proof {
            lemma_ascending_distinct(before);
        }
        match self.find(topic, partition) {
            Some(i) => {
                proof {
                    lemma_at(before, i as int);
                }
                let entry = self.entries.remove(i);
                let ghost now = self.entries@;
                proof {
                    assert(now == before.remove(i as int));
                    assert forall|a: int| 0 <= a < now.len() implies #[trigger] now[a] == before[if a
                        < i {
                        a
                    } else {
                        a + 1
                    }] by {}
                    assert(ascending_keys(now));
                    lemma_ascending_distinct(now);
                    lemma_one_less(before, now, i as int, key);
                }
                Some(entry.1)
            },
            None => {
                assert(as_map(before).remove(key) =~= as_map(before));
                None
            },
        }
    }

    /// Takes every key out.
    pub fn clear(&mut self)
        ensures
            final(self).well_formed(),
            final(self)@ == Map::<(Seq<char>, i32), V>::empty(),
    {
        self.entries.clear();
        assert(as_map(self.entries@) =~= Map::empty());
    }

    /// The entries in the order of their keys.
    pub fn entries(&self) -> (entries: &Vec<(TopicPartition, V)>)
        requires
            self.well_formed(),
        ensures
            ascending_keys(entries@),
            distinct_keys(entries@),
            self@ == as_map(entries@),
    {
        proof {
            lemma_ascending_distinct(self.entries@);
        }
        &self.entries
    }
}

/// Whether a list holds exactly these keys, in order, each once.
pub open spec fn key_list(keys: Seq<(Seq<char>, i32)>, of: Set<(Seq<char>, i32)>) -> bool {
    &&& forall|i: int, j: int|
        0 <= i < j < keys.len() ==> slot_before(#[trigger] keys[i], #[trigger] keys[j])
    &&& forall|key: (Seq<char>, i32)| #[trigger] keys.contains(key) <==> of.contains(key)
}

/// The keys of a map in their order.
pub open spec fn keys_of(of: Set<(Seq<char>, i32)>) -> Seq<(Seq<char>, i32)> {
    choose|keys: Seq<(Seq<char>, i32)>| #[trigger] key_list(keys, of)
}

proof fn lemma_one_key_list(
    a: Seq<(Seq<char>, i32)>,
    b: Seq<(Seq<char>, i32)>,
    of: Set<(Seq<char>, i32)>,
)
    requires
        key_list(a, of),
        key_list(b, of),
    ensures
        a == b,
    decreases a.len(),
{
    if a.len() == 0 {
        if b.len() > 0 {
            assert(b.contains(b[0]));
            assert(a.contains(b[0]));
        }
        assert(a =~= b);
    } else {
        assert(a.contains(a.last()));
        assert(b.contains(a.last()));
        assert(b.contains(b.last()));
        assert(a.contains(b.last()));
        let i = choose|i: int| 0 <= i < a.len() && a[i] == b.last();
        let j = choose|j: int| 0 <= j < b.len() && b[j] == a.last();
        lemma_slots_ordered(a.last(), b.last());
        if a.last() != b.last() {
            assert(slot_before(a[i], a[a.len() - 1]));
            assert(slot_before(b[j], b[b.len() - 1]));
        }
        let fewer = of.remove(a.last());
        lemma_key_list_shorter(a, of);
        lemma_key_list_shorter(b, of);
        lemma_one_key_list(a.drop_last(), b.drop_last(), fewer);
        assert(a =~= a.drop_last().push(a.last()));
        assert(b =~= b.drop_last().push(b.last()));
    }
}

pub proof fn lemma_key_list_shorter(a: Seq<(Seq<char>, i32)>, of: Set<(Seq<char>, i32)>)
    requires
        key_list(a, of),
        a.len() > 0,
    ensures
        key_list(a.drop_last(), of.remove(a.last())),
{
    let less = a.drop_last();
    assert forall|key: (Seq<char>, i32)| #[trigger] less.contains(key) <==> of.remove(
        a.last(),
    ).contains(key) by {
        if less.contains(key) {
            let i = choose|i: int| 0 <= i < less.len() && less[i] == key;
            assert(a[i] == key);
            assert(a.contains(key));
            lemma_slots_ordered(a[i], a[a.len() - 1]);
        }
        if of.contains(key) && key != a.last() {
            assert(a.contains(key));
            let i = choose|i: int| 0 <= i < a.len() && a[i] == key;
            assert(less[i] == key);
        }
    }
}

/// No key of a list of keys occurs twice.
pub proof fn lemma_keys_differ(keys: Seq<(Seq<char>, i32)>, of: Set<(Seq<char>, i32)>)
    requires
        key_list(keys, of),
    ensures
        keys.no_duplicates(),
{
    assert forall|i: int, j: int|
        0 <= i < keys.len() && 0 <= j < keys.len() && i != j implies keys[i] != keys[j] by {
        lemma_slots_ordered(keys[i], keys[j]);
        if i < j {
            assert(slot_before(keys[i], keys[j]));
        } else {
            assert(slot_before(keys[j], keys[i]));
        }
    }
}

/// There is one list of a map's keys.
pub proof fn lemma_keys_are(keys: Seq<(Seq<char>, i32)>, of: Set<(Seq<char>, i32)>)
    requires
        key_list(keys, of),
    ensures
        keys_of(of) == keys,
{
    lemma_one_key_list(keys_of(of), keys, of);
}

/// The list of keys with one more key is the list without it, with the key at its place.
pub proof fn lemma_one_key_more(of: Set<(Seq<char>, i32)>, key: (Seq<char>, i32)) -> (at: int)
    requires
        key_list(keys_of(of), of),
        key_list(keys_of(of.insert(key)), of.insert(key)),
        !of.contains(key),
    ensures
        ({
            let keys = keys_of(of.insert(key));
            &&& 0 <= at < keys.len()
            &&& keys[at] == key
            &&& keys.remove(at) == keys_of(of)
        }),
{
    let more = of.insert(key);
    let keys = keys_of(more);
    assert(keys.contains(key) <==> more.contains(key));
    let at = choose|at: int| 0 <= at < keys.len() && keys[at] == key;
    let less = keys.remove(at);
    assert forall|i: int, j: int| 0 <= i < j < less.len() implies slot_before(
        #[trigger] less[i],
        #[trigger] less[j],
    ) by {
        let a = if i < at {
            i
        } else {
            i + 1
        };
        let b = if j < at {
            j
        } else {
            j + 1
        };
        assert(slot_before(keys[a], keys[b]));
    }
    assert forall|other: (Seq<char>, i32)| #[trigger] less.contains(other) <==> of.contains(other) by {
        if less.contains(other) {
            let i = choose|i: int| 0 <= i < less.len() && less[i] == other;
            let a = if i < at {
                i
            } else {
                i + 1
            };
            assert(keys[a] == other);
            assert(keys.contains(other));
            lemma_slots_ordered(keys[a], keys[at]);
            if a < at {
                assert(slot_before(keys[a], keys[at]));
            } else {
                assert(slot_before(keys[at], keys[a]));
            }
        }
        if of.contains(other) {
            assert(more.contains(other));
            assert(keys.contains(other));
            let a = choose|a: int| 0 <= a < keys.len() && keys[a] == other;
            assert(less[if a < at {
                a
            } else {
                a - 1
            }] == other);
        }
    }
    lemma_keys_are(less, of);
    at
}

/// The keys of some entries.
pub open spec fn entry_keys<V>(list: Seq<(TopicPartition, V)>) -> Seq<(Seq<char>, i32)> {
    Seq::new(list.len(), |i: int| list[i].0@)
}

/// The keys of ascending entries are the keys of their map.
pub proof fn lemma_entry_keys<V>(list: Seq<(TopicPartition, V)>)
    requires
        ascending_keys(list),
    ensures
        key_list(entry_keys(list), as_map(list).dom()),
        keys_of(as_map(list).dom()) == entry_keys(list),
{
    let keys = entry_keys(list);
    assert forall|key: (Seq<char>, i32)| #[trigger] keys.contains(key) <==> as_map(
        list,
    ).dom().contains(key) by {
        if keys.contains(key) {
            let k = choose|k: int| 0 <= k < keys.len() && keys[k] == key;
            assert(list[k].0@ == key);
        }
        if has_key(list, key) {
            let k = key_at(list, key);
            assert(keys[k] == key);
        }
    }
    lemma_keys_are(keys, as_map(list).dom());
}

impl SlotMap<i64> {
    /// The same entries once more.
    pub fn copied(&self) -> (copy: Self)
        requires
            self.well_formed(),
        ensures
            copy.well_formed(),
            copy@ == self@,
    {
        let mut entries: Vec<(TopicPartition, i64)> = Vec::new();
        let mut i: usize = 0;
        while i < self.entries.len()
            invariant
                i <= self.entries@.len(),
                entries@.len() == i,
                forall|k: int|
                    0 <= k < i ==> (#[trigger] entries@[k]).0@ == self.entries@[k].0@
                        && entries@[k].1 == self.entries@[k].1,
            decreases self.entries@.len() - i,
        {
            entries.push((self.entries[i].0.clone(), self.entries[i].1));
            i = i + 1;
        }
        proof {
            let (one, two) = (self.entries@, entries@);
            assert(ascending_keys(two));
            lemma_ascending_distinct(one);
            lemma_ascending_distinct(two);
            assert forall|key: (Seq<char>, i32)| has_key(one, key) <==> has_key(two, key) by {
                if has_key(one, key) {
                    assert(two[key_at(one, key)].0@ == key);
                }
                if has_key(two, key) {
                    assert(one[key_at(two, key)].0@ == key);
                }
            }
            assert forall|key: (Seq<char>, i32)| has_key(one, key) implies as_map(one)[key]
                == as_map(two)[key] by {
                let k = key_at(one, key);
                lemma_at(one, k);
                lemma_at(two, k);
            }
            assert(as_map(one) =~= as_map(two));
        }
        SlotMap { entries }
    }
}

impl<V> SlotMap<V> {
    /// The keys in their order.
    pub fn keys(&self) -> (keys: Vec<TopicPartition>)
        requires
            self.well_formed(),
        ensures
            group::slots_of(keys@) == keys_of(self@.dom()),
            key_list(group::slots_of(keys@), self@.dom()),
    {
        let mut keys: Vec<TopicPartition> = Vec::new();
        let mut i: usize = 0;
        while i < self.entries.len()
            invariant
                i <= self.entries@.len(),
                keys@.len() == i,
                forall|k: int| 0 <= k < i ==> (#[trigger] keys@[k])@ == self.entries@[k].0@,
            decreases self.entries@.len() - i,
        {
            keys.push(self.entries[i].0.clone());
            i = i + 1;
        }
        proof {
            lemma_entry_keys(self.entries@);
            assert(group::slots_of(keys@) =~= entry_keys(self.entries@));
        }
        keys
    }

    /// The entries in the order of their keys, taken out of the map.
    pub fn into_entries(self) -> (entries: Vec<(TopicPartition, V)>)
        requires
            self.well_formed(),
        ensures
            ascending_keys(entries@),
            distinct_keys(entries@),
            self@ == as_map(entries@),
    {
        proof {
            lemma_ascending_distinct(self.entries@);
        }
        self.entries
    }

    /// How many keys there are.
    pub fn len(&self) -> (n: usize)
        requires
            self.well_formed(),
        ensures
            n == keys_of(self@.dom()).len(),
    {
        proof {
            lemma_entry_keys(self.entries@);
        }
        self.entries.len()
    }

    /// Whether there is no key.
    pub fn is_empty(&self) -> (yes: bool)
        ensures
            yes == (self@ == Map::<(Seq<char>, i32), V>::empty()),
    {
        proof {
            if self.entries@.len() > 0 {
                assert(has_key(self.entries@, self.entries@[0].0@));
                assert(self@.dom().contains(self.entries@[0].0@));
            } else {
                assert(self@ =~= Map::empty());
            }
        }
        self.entries.len() == 0
    }
}

/// Whether a key comes before another.
fn precedes(topic: &str, partition: i32, other: &TopicPartition) -> (yes: bool)
    ensures
        yes == slot_before((topic@, partition), other@),
{
    if names::is_before(topic, other.topic.as_str()) {
        return true;
    }
    partition < other.partition && names::same(topic, other.topic.as_str())
}

proof fn lemma_one_more<V>(
    before: Seq<(TopicPartition, V)>,
    now: Seq<(TopicPartition, V)>,
    at: int,
    key: (Seq<char>, i32),
    value: V,
)
    requires
        distinct_keys(before),
        distinct_keys(now),
        0 <= at <= before.len(),
        now.len() == before.len() + 1,
        now[at].0@ == key,
        now[at].1 == value,
        forall|j: int| 0 <= j < at ==> now[j] == before[j],
        forall|j: int| at < j < now.len() ==> now[j] == before[j - 1],
    ensures
        as_map(now) == as_map(before).insert(key, value),
{
    assert forall|k: (Seq<char>, i32)| #[trigger] as_map(now).dom().contains(k) == as_map(
        before,
    ).insert(key, value).dom().contains(k) by {
        if has_key(before, k) {
            let i = key_at(before, k);
            assert(now[if i < at {
                i
            } else {
                i + 1
            }].0@ == k);
        }
        if has_key(now, k) && k != key {
            let i = key_at(now, k);
            assert(before[if i < at {
                i
            } else {
                i - 1
            }].0@ == k);
        }
        assert(now[at].0@ == key);
    }
    assert forall|k: (Seq<char>, i32)| #[trigger] as_map(now).dom().contains(k) implies as_map(
        now,
    )[k] == as_map(before).insert(key, value)[k] by {
        lemma_at(now, at);
        if k != key {
            let i = key_at(now, k);
            lemma_at(now, i);
            lemma_at(
                before,
                if i < at {
                    i
                } else {
                    i - 1
                },
            );
        }
    }
    assert(as_map(now) =~= as_map(before).insert(key, value));
}

proof fn lemma_one_less<V>(
    before: Seq<(TopicPartition, V)>,
    now: Seq<(TopicPartition, V)>,
    i: int,
    key: (Seq<char>, i32),
)
    requires
        distinct_keys(before),
        distinct_keys(now),
        0 <= i < before.len(),
        before[i].0@ == key,
        now.len() == before.len() - 1,
        forall|a: int| 0 <= a < i ==> now[a] == before[a],
        forall|a: int| i <= a < now.len() ==> now[a] == before[a + 1],
    ensures
        as_map(now) == as_map(before).remove(key),
{
    assert forall|k: (Seq<char>, i32)| #[trigger] as_map(now).dom().contains(k) == as_map(
        before,
    ).remove(key).dom().contains(k) by {
        if has_key(now, k) {
            let a = key_at(now, k);
            let b = if a < i {
                a
            } else {
                a + 1
            };
            assert(before[b].0@ == k);
            assert(before[i].0@ == key);
        }
        if has_key(before, k) && k != key {
            let b = key_at(before, k);
            let a = if b < i {
                b
            } else {
                b - 1
            };
            assert(now[a].0@ == k);
        }
    }
    assert forall|k: (Seq<char>, i32)| #[trigger] as_map(now).dom().contains(k) implies as_map(
        now,
    )[k] == as_map(before).remove(key)[k] by {
        let a = key_at(now, k);
        lemma_at(now, a);
        lemma_at(
            before,
            if a < i {
                a
            } else {
                a + 1
            },
        );
    }
    assert(as_map(now) =~= as_map(before).remove(key));
}

proof fn lemma_same_but_one<V>(
    before: Seq<(TopicPartition, V)>,
    now: Seq<(TopicPartition, V)>,
    i: int,
    key: (Seq<char>, i32),
    value: V,
)
    requires
        distinct_keys(before),
        distinct_keys(now),
        now.len() == before.len(),
        0 <= i < now.len(),
        now[i].0@ == key,
        before[i].0@ == key,
        now[i].1 == value,
        forall|j: int| 0 <= j < now.len() && j != i ==> now[j] == before[j],
    ensures
        as_map(now) == as_map(before).insert(key, value),
{
    assert forall|k: (Seq<char>, i32)| #[trigger] as_map(now).dom().contains(k) == as_map(
        before,
    ).insert(key, value).dom().contains(k) by {
        if has_key(now, k) {
            let j = key_at(now, k);
            assert(before[j].0@ == k);
        }
        if has_key(before, k) {
            let j = key_at(before, k);
            assert(now[j].0@ == k);
        }
        assert(now[i].0@ == key);
    }
    assert forall|k: (Seq<char>, i32)| #[trigger] as_map(now).dom().contains(k) implies as_map(
        now,
    )[k] == as_map(before).insert(key, value)[k] by {
        let j = key_at(now, k);
        lemma_at(now, j);
        lemma_at(before, j);
    }
    assert(as_map(now) =~= as_map(before).insert(key, value));
}

/// Whether partitions are in order, repeats allowed.
pub open spec fn in_slot_order(list: Seq<(Seq<char>, i32)>) -> bool {
    forall|i: int, j: int|
        0 <= i < j < list.len() ==> !slot_before(#[trigger] list[j], #[trigger] list[i])
}

/// Puts partitions in order.
pub fn sorted(partitions: Vec<TopicPartition>) -> (list: Vec<TopicPartition>)
    ensures
        in_slot_order(group::slots_of(list@)),
        group::slots_of(list@).to_multiset() == group::slots_of(partitions@).to_multiset(),
{
    let ghost all = partitions@;
    let mut list: Vec<TopicPartition> = Vec::new();
    assert(group::slots_of(list@) =~= group::slots_of(all.take(0)));
    for tp in it: partitions
        invariant
            it.seq() == all,
            in_slot_order(group::slots_of(list@)),
            group::slots_of(list@).to_multiset() == group::slots_of(
                all.take(it.index() as int),
            ).to_multiset(),
    {
        let ghost i = it.index() as int;
        let ghost before = group::slots_of(list@);
        let ghost new = tp@;
        let mut at: usize = list.len();
        while at > 0 && precedes(tp.topic.as_str(), tp.partition, &list[at - 1])
            invariant
                group::slots_of(list@) == before,
                at <= list@.len(),
                new == tp@,
                forall|k: int| at <= k < before.len() ==> slot_before(new, #[trigger] before[k]),
            decreases at,
        {
            assert(before[at - 1] == list@[at - 1]@);
            at = at - 1;
        }
        assert(at > 0 ==> before[at - 1] == list@[at - 1]@);
        list.insert(at, tp);
        proof {
            let view = group::slots_of(list@);
            assert(view =~= before.insert(at as int, new));
            assert(group::slots_of(all.take(i + 1)) =~= group::slots_of(all.take(i)).push(new));
            vstd::seq_lib::to_multiset_insert(before, at as int, new);
            vstd::seq_lib::to_multiset_build(group::slots_of(all.take(i)), new);
            lemma_in_place(before, at as int, new);
        }
    }
    assert(all.take(all.len() as int) =~= all);
    list
}

proof fn lemma_in_place(before: Seq<(Seq<char>, i32)>, at: int, new: (Seq<char>, i32))
    requires
        in_slot_order(before),
        0 <= at <= before.len(),
        at > 0 ==> !slot_before(new, before[at - 1]),
        forall|k: int| at <= k < before.len() ==> slot_before(new, #[trigger] before[k]),
    ensures
        in_slot_order(before.insert(at, new)),
{
    let view = before.insert(at, new);
    assert forall|a: int, b: int| 0 <= a < b < view.len() implies !slot_before(
        #[trigger] view[b],
        #[trigger] view[a],
    ) by {
        if b == at {
            if a < at - 1 {
                lemma_slots_ordered(before[a], before[at - 1]);
                lemma_slots_ordered(before[at - 1], new);
                lemma_slots_ordered(before[a], new);
                assert(!slot_before(before[at - 1], before[a]));
                if slot_before(new, before[a]) && before[a] != before[at - 1] {
                    lemma_slots_transitive(new, before[a], before[at - 1]);
                }
            }
        } else if a == at {
            lemma_slots_ordered(new, before[b - 1]);
        } else {
            let x = if a < at {
                a
            } else {
                a - 1
            };
            let y = if b < at {
                b
            } else {
                b - 1
            };
            assert(view[a] == before[x] && view[b] == before[y]);
        }
    }
}

/// There is one order of the same partitions.
pub proof fn lemma_one_order(a: Seq<(Seq<char>, i32)>, b: Seq<(Seq<char>, i32)>)
    requires
        in_slot_order(a),
        in_slot_order(b),
        a.to_multiset() == b.to_multiset(),
    ensures
        a == b,
    decreases a.len(),
{
    broadcast use vstd::seq_lib::group_to_multiset_ensures;

    vstd::seq_lib::to_multiset_len(a);
    vstd::seq_lib::to_multiset_len(b);
    if a.len() > 0 {
        let x = a.last();
        let y = b.last();
        assert(a.contains(x) && b.contains(y));
        assert(b.to_multiset().count(x) > 0);
        assert(a.to_multiset().count(y) > 0);
        assert(b.contains(x));
        assert(a.contains(y));
        let i = choose|i: int| 0 <= i < b.len() && b[i] == x;
        let j = choose|j: int| 0 <= j < a.len() && a[j] == y;
        lemma_slots_ordered(x, y);
        if x != y {
            assert(!slot_before(b[b.len() - 1], b[i]));
            assert(!slot_before(a[a.len() - 1], a[j]));
        }
        assert(a.drop_last() =~= a.remove(a.len() - 1));
        assert(b.drop_last() =~= b.remove(b.len() - 1));
        lemma_one_order(a.drop_last(), b.drop_last());
        assert(a =~= a.drop_last().push(x));
        assert(b =~= b.drop_last().push(y));
    } else {
        assert(a =~= b);
    }
}

/// Keys stand in the order of their topics' names, and those of one topic in the order of
/// their numbers.
pub proof fn law_keys_are_ordered(a: (Seq<char>, i32), b: (Seq<char>, i32))
    ensures
        names::before(a.0, b.0) ==> slot_before(a, b),
        a.0 == b.0 ==> (slot_before(a, b) <==> a.1 < b.1),
        names::before(b.0, a.0) ==> !slot_before(a, b),
{
    names::law_names_are_ordered(a.0, b.0);
}

} // verus!
