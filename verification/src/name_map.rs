//! A map keyed by name.
use crate::group;
use crate::names;
use crate::slots;
use crate::slots::SlotMap;
use vstd::prelude::*;

verus! {

/// Values by name: a map by topic and partition whose partitions are all zero.
#[derive(Debug)]
pub struct NameMap<V> {
    slots: SlotMap<V>,
}

impl<V> View for NameMap<V> {
    type V = Map<Seq<char>, V>;

    closed spec fn view(&self) -> Map<Seq<char>, V> {
        Map::new(
            |name: Seq<char>| self.slots@.dom().contains((name, 0i32)),
            |name: Seq<char>| self.slots@[(name, 0i32)],
        )
    }
}

impl<V> NameMap<V> {
    pub closed spec fn well_formed(&self) -> bool {
        &&& self.slots.well_formed()
        &&& forall|slot: (Seq<char>, i32)| #[trigger]
            self.slots@.dom().contains(slot) ==> slot.1 == 0
    }

    pub fn new() -> (map: Self)
        ensures
            map.well_formed(),
            map@ == Map::<Seq<char>, V>::empty(),
    {
        let map = NameMap { slots: SlotMap::new() };
        assert(map@ =~= Map::empty());
        map
    }

    /// The value under a name.
    pub fn get(&self, name: &str) -> (value: Option<&V>)
        requires
            self.well_formed(),
        ensures
            match value {
                Some(v) => self@.dom().contains(name@) && *v == self@[name@],
                None => !self@.dom().contains(name@),
            },
    {
        self.slots.get(name, 0)
    }

    /// Sets the value under a name.
    pub fn insert(&mut self, name: &str, value: V)
        requires
            old(self).well_formed(),
        ensures
            final(self).well_formed(),
            final(self)@ == old(self)@.insert(name@, value),
    {
        self.slots.insert(name, 0, value);
        assert(self@ =~= old(self)@.insert(name@, value));
    }

    /// Takes a name out, and gives its value back.
    pub fn remove(&mut self, name: &str) -> (value: Option<V>)
        requires
            old(self).well_formed(),
        ensures
            final(self).well_formed(),
            final(self)@ == old(self)@.remove(name@),
            value == if old(self)@.dom().contains(name@) {
                Some(old(self)@[name@])
            } else {
                None
            },
    {
        let value = self.slots.remove(name, 0);
        assert(self@ =~= old(self)@.remove(name@));
        value
    }

    /// The names in their order.
    pub fn names(&self) -> (list: Vec<String>)
        requires
            self.well_formed(),
        ensures
            names::lists(names::names_of(list@), self@.dom()),
    {
        let keys = self.slots.keys();
        let ghost slots = group::slots_of(keys@);
        let mut list: Vec<String> = Vec::new();
        let mut i: usize = 0;
        while i < keys.len()
            invariant
                i <= keys@.len(),
                list@.len() == i,
                forall|k: int| 0 <= k < i ==> (#[trigger] list@[k])@ == keys@[k]@.0,
            decreases keys@.len() - i,
        {
            list.push(keys[i].topic.clone());
            i = i + 1;
        }
        proof {
            let found = names::names_of(list@);
            assert forall|k: int| 0 <= k < slots.len() implies (#[trigger] slots[k]).1 == 0
                && slots[k].0 == found[k] by {
                assert(slots[k] == keys@[k]@);
                assert(list@[k]@ == keys@[k]@.0);
                assert(slots.contains(slots[k]));
            }
            assert forall|a: int, b: int| 0 <= a < b < found.len() implies names::before(
                #[trigger] found[a],
                #[trigger] found[b],
            ) by {
                assert(slots::slot_before(slots[a], slots[b]));
            }
            assert(found.to_set() =~= self@.dom()) by {
                assert forall|name: Seq<char>| found.to_set().contains(name)
                    == self@.dom().contains(name) by {
                    if found.contains(name) {
                        let k = choose|k: int| 0 <= k < found.len() && found[k] == name;
                        assert(slots.contains(slots[k]));
                        assert(slots[k] == (name, 0i32));
                    }
                    if self@.dom().contains(name) {
                        assert(slots.contains((name, 0i32)));
                        let k = choose|k: int| 0 <= k < slots.len() && slots[k] == (name, 0i32);
                        assert(found[k] == name);
                    }
                }
            }
        }
        list
    }

    /// Takes every name out.
    pub fn clear(&mut self)
        ensures
            final(self).well_formed(),
            final(self)@ == Map::<Seq<char>, V>::empty(),
    {
        self.slots.clear();
        assert(self@ =~= Map::empty());
    }
}

} // verus!
