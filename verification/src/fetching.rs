//! A consumer over any number of partitions: positions, fetch sessions, and what an
//! answer to a fetch means.
//!
//! Partitions are fetched together, one request per broker. Nothing here opens a socket
//! or reads a clock.
use crate::buffer;
use crate::client;
use crate::client::{Disposition, Error, Fault};
use crate::consumer;
use crate::consumer::{AbortedTransaction, IsolationLevel, Record};
use crate::error;
use crate::error::{CodecFault, Flaw};
use crate::general;
use crate::group;
use crate::group::TopicPartition;
use crate::grouping;
use crate::name_map::NameMap;
use crate::names;
use crate::records;
use crate::records::LeanBatch;
use crate::slots;
use crate::slots::SlotMap;
use bytes::Bytes;
use vstd::prelude::*;

verus! {

/// The timestamp that asks for the oldest offset still retained.
pub const EARLIEST: i64 = -2;

/// The timestamp that asks for the offset after the last record.
pub const LATEST: i64 = -1;

/// The broker forgot the fetch session.
pub const FETCH_SESSION_ID_NOT_FOUND: i16 = 70;

/// The fetch session's epoch is stale.
pub const INVALID_FETCH_SESSION_EPOCH: i16 = 71;

/// A fetch session with one broker. An incremental fetch names only what changed: the
/// broker remembers the partition set, so a consumer of many partitions of which two
/// are busy sends two.
#[derive(Debug)]
struct Session {
    /// Zero until the broker assigns one.
    id: i32,
    /// Zero opens a full fetch; each accepted answer advances it.
    epoch: i32,
    /// What the broker believes the offsets are.
    known: SlotMap<i64>,
}

/// What a fetch session stands for.
pub ghost struct Agreement {
    pub id: i32,
    pub epoch: i32,
    pub known: Map<(Seq<char>, i32), i64>,
}

impl View for Session {
    type V = Agreement;

    closed spec fn view(&self) -> Agreement {
        Agreement { id: self.id, epoch: self.epoch, known: self.known@ }
    }
}

/// A session before the broker knows anything: the next fetch is a full one.
pub open spec fn no_agreement() -> Agreement {
    Agreement { id: 0, epoch: 0, known: Map::empty() }
}

impl Session {
    spec fn well_formed(&self) -> bool {
        self.known.well_formed()
    }

    fn new() -> (session: Self)
        ensures
            session.well_formed(),
            session@ == no_agreement(),
    {
        Session { id: 0, epoch: 0, known: SlotMap::new() }
    }
}

/// A fetch that was sent and not yet collected.
#[derive(Debug)]
struct Outstanding {
    /// The partitions that each broker was asked about, in request order.
    groups: Vec<(String, Vec<TopicPartition>)>,
    generation: u64,
}

/// What a fetch that was sent stands for.
pub ghost struct Asked {
    pub groups: Seq<(Seq<char>, Seq<(Seq<char>, i32)>)>,
    pub generation: u64,
}

/// What a list of brokers with their partitions stands for.
pub open spec fn asked_of(groups: Seq<(String, Vec<TopicPartition>)>) -> Seq<
    (Seq<char>, Seq<(Seq<char>, i32)>),
> {
    Seq::new(groups.len(), |g: int| (groups[g].0@, group::slots_of(groups[g].1@)))
}

/// A consumer of the partitions it was given.
#[derive(Debug)]
pub struct Consumer {
    /// The offset that each partition's next fetch asks for.
    positions: SlotMap<i64>,
    /// Partitions that are held but not fetched. They stay assigned: a paused one keeps
    /// its position, and resuming it does not look it up again.
    paused: SlotMap<()>,
    isolation: IsolationLevel,
    max_wait_ms: i32,
    /// The budget of one **partition**.
    max_bytes: i32,
    /// The budget of one **response**, across every partition in it. It is the larger
    /// one: a response carries many partitions.
    max_response_bytes: i32,
    /// One session per broker address.
    sessions: NameMap<Session>,
    incremental: bool,
    outstanding: Option<Outstanding>,
    prefetch: bool,
    /// Where a partition starts that the group never committed an offset for.
    reset: i64,
    /// How often to commit without being asked, in nanoseconds.
    auto_commit: Option<u64>,
    last_auto_commit: Option<u64>,
    /// Advances whenever the assignment or a position changes for another reason than
    /// consuming. A fetch from an older generation asked a question that is no longer
    /// the one being asked.
    generation: u64,
}

/// What a [`Consumer`] stands for.
pub ghost struct Reading {
    pub positions: Map<(Seq<char>, i32), i64>,
    pub paused: Set<(Seq<char>, i32)>,
    pub isolation: IsolationLevel,
    pub max_wait_ms: i32,
    pub max_bytes: i32,
    pub max_response_bytes: i32,
    pub sessions: Map<Seq<char>, Agreement>,
    pub incremental: bool,
    pub outstanding: Option<Asked>,
    pub prefetch: bool,
    pub reset: i64,
    pub auto_commit: Option<u64>,
    pub last_auto_commit: Option<u64>,
    pub generation: u64,
}

impl View for Consumer {
    type V = Reading;

    closed spec fn view(&self) -> Reading {
        Reading {
            positions: self.positions@,
            paused: self.paused@.dom(),
            isolation: self.isolation,
            max_wait_ms: self.max_wait_ms,
            max_bytes: self.max_bytes,
            max_response_bytes: self.max_response_bytes,
            sessions: self.sessions@.map_values(|s: Session| s@),
            incremental: self.incremental,
            outstanding: match self.outstanding {
                Some(o) => Some(Asked { groups: asked_of(o.groups@), generation: o.generation }),
                None => None,
            },
            prefetch: self.prefetch,
            reset: self.reset,
            auto_commit: self.auto_commit,
            last_auto_commit: self.last_auto_commit,
            generation: self.generation,
        }
    }
}

impl Reading {
    /// After the set of fetched partitions changed: a fetch in flight asked about a set
    /// that no longer applies, and the broker's sessions remember that set too.
    pub open spec fn fetch_set_changed(self) -> Reading {
        Reading {
            generation: self.generation.wrapping_add(1),
            sessions: Map::empty(),
            ..self
        }
    }

    /// After something changed that a fetch in flight did not know.
    pub open spec fn next_generation(self) -> Reading {
        Reading { generation: self.generation.wrapping_add(1), ..self }
    }

    /// What is agreed with a broker.
    pub open spec fn agreed(self, addr: Seq<char>) -> Agreement {
        if self.sessions.dom().contains(addr) {
            self.sessions[addr]
        } else {
            no_agreement()
        }
    }
}

/// A consumer that holds nothing.
pub open spec fn unassigned(isolation: IsolationLevel) -> Reading {
    Reading {
        positions: Map::empty(),
        paused: Set::empty(),
        isolation,
        max_wait_ms: 500,
        max_bytes: 10_485_760,
        max_response_bytes: 67_108_864,
        sessions: Map::empty(),
        incremental: true,
        outstanding: None,
        prefetch: true,
        reset: EARLIEST,
        auto_commit: None,
        last_auto_commit: None,
        generation: 0,
    }
}

impl Consumer {
    pub closed spec fn well_formed(&self) -> bool {
        &&& self.positions.well_formed()
        &&& self.paused.well_formed()
        &&& self.sessions.well_formed()
        &&& forall|addr: Seq<char>| #[trigger]
            self.sessions@.dom().contains(addr) ==> self.sessions@[addr].well_formed()
    }

    /// A consumer that holds nothing.
    pub fn new(isolation: IsolationLevel) -> (me: Self)
        ensures
            me.well_formed(),
            me@ == unassigned(isolation),
    {
        let me = Consumer {
            positions: SlotMap::new(),
            paused: SlotMap::new(),
            isolation,
            max_wait_ms: 500,
            max_bytes: 10_485_760,
            max_response_bytes: 67_108_864,
            sessions: NameMap::new(),
            incremental: true,
            outstanding: None,
            prefetch: true,
            reset: EARLIEST,
            auto_commit: None,
            last_auto_commit: None,
            generation: 0,
        };
        assert(me@.paused =~= Set::empty());
        assert(me@.sessions =~= Map::empty());
        me
    }

    /// A fetch in flight asked about a set that no longer applies, and the brokers'
    /// sessions remember that set too: the next fetch is a full one.
    pub fn on_fetch_set_changed(&mut self)
        requires
            old(self).well_formed(),
        ensures
            final(self).well_formed(),
            final(self)@ == old(self)@.fetch_set_changed(),
    {
        self.generation = self.generation.wrapping_add(1);
        self.sessions.clear();
        assert(self@.sessions =~= Map::empty());
    }

    /// Takes a partition on, at an offset or at one of [`EARLIEST`] and [`LATEST`].
    /// Returns whether the offset must be looked up before the first fetch.
    pub fn assign(&mut self, topic: &str, partition: i32, offset: i64) -> (unresolved: bool)
        requires
            old(self).well_formed(),
        ensures
            final(self).well_formed(),
            final(self)@ == (Reading {
                positions: old(self)@.positions.insert((topic@, partition), offset),
                ..old(self)@
            }),
            unresolved == (offset == EARLIEST || offset == LATEST),
    {
        self.positions.insert(topic, partition, offset);
        offset == EARLIEST || offset == LATEST
    }

    /// Gives a partition up.
    pub fn remove(&mut self, topic: &str, partition: i32)
        requires
            old(self).well_formed(),
        ensures
            final(self).well_formed(),
            final(self)@ == (Reading {
                positions: old(self)@.positions.remove((topic@, partition)),
                paused: old(self)@.paused.remove((topic@, partition)),
                ..old(self)@
            }).fetch_set_changed(),
    {
        self.positions.remove(topic, partition);
        self.paused.remove(topic, partition);
        assert(self@.paused =~= old(self)@.paused.remove((topic@, partition)));
        self.on_fetch_set_changed();
    }

    /// Stops fetching partitions without giving them up: backpressure, not a
    /// revocation.
    pub fn pause(&mut self, partitions: &Vec<TopicPartition>)
        requires
            old(self).well_formed(),
        ensures
            final(self).well_formed(),
            final(self)@ == (Reading {
                paused: old(self)@.paused.union(group::slots_of(partitions@).to_set()),
                ..old(self)@
            }).fetch_set_changed(),
    {
        let ghost before = self@;
        let ghost all = group::slots_of(partitions@);
        let mut i: usize = 0;
        while i < partitions.len()
            invariant
                self.well_formed(),
                i <= partitions@.len(),
                all == group::slots_of(partitions@),
                self@ == (Reading { paused: self@.paused, ..before }),
                forall|slot: (Seq<char>, i32)| #[trigger]
                    self@.paused.contains(slot) <==> before.paused.contains(slot) || all.take(
                        i as int,
                    ).contains(slot),
            decreases partitions@.len() - i,
        {
            let ghost so_far = self@.paused;
            let ghost slot = partitions@[i as int]@;
            self.paused.insert(partitions[i].topic.as_str(), partitions[i].partition, ());
            proof {
                assert(self@.paused =~= so_far.insert(slot));
                assert(all.take(i + 1) =~= all.take(i as int).push(slot));
                lemma_push_contains(all.take(i as int), slot);
            }
            i = i + 1;
        }
        proof {
            assert(all.take(all.len() as int) =~= all);
            assert(self@.paused =~= before.paused.union(all.to_set()));
        }
        self.on_fetch_set_changed();
    }

    /// Fetches partitions again, from wherever they stopped.
    pub fn resume(&mut self, partitions: &Vec<TopicPartition>)
        requires
            old(self).well_formed(),
        ensures
            final(self).well_formed(),
            final(self)@ == (Reading {
                paused: old(self)@.paused.difference(group::slots_of(partitions@).to_set()),
                ..old(self)@
            }).fetch_set_changed(),
    {
        let ghost before = self@;
        let ghost all = group::slots_of(partitions@);
        let mut i: usize = 0;
        while i < partitions.len()
            invariant
                self.well_formed(),
                i <= partitions@.len(),
                all == group::slots_of(partitions@),
                self@ == (Reading { paused: self@.paused, ..before }),
                forall|slot: (Seq<char>, i32)| #[trigger]
                    self@.paused.contains(slot) <==> before.paused.contains(slot) && !all.take(
                        i as int,
                    ).contains(slot),
            decreases partitions@.len() - i,
        {
            let ghost so_far = self@.paused;
            let ghost slot = partitions@[i as int]@;
            self.paused.remove(partitions[i].topic.as_str(), partitions[i].partition);
            proof {
                assert(self@.paused =~= so_far.remove(slot));
                assert(all.take(i + 1) =~= all.take(i as int).push(slot));
                lemma_push_contains(all.take(i as int), slot);
            }
            i = i + 1;
        }
        proof {
            assert(all.take(all.len() as int) =~= all);
            assert(self@.paused =~= before.paused.difference(all.to_set()));
        }
        self.on_fetch_set_changed();
    }

    /// Every paused partition, in order, whether or not it is still assigned.
    pub fn paused(&self) -> (keys: Vec<TopicPartition>)
        requires
            self.well_formed(),
        ensures
            group::slots_of(keys@) == slots::keys_of(self@.paused),
            slots::key_list(group::slots_of(keys@), self@.paused),
    {
        self.paused.keys()
    }

    /// Whether a partition is paused.
    pub fn is_paused(&self, topic: &str, partition: i32) -> (yes: bool)
        requires
            self.well_formed(),
        ensures
            yes == self@.paused.contains((topic@, partition)),
    {
        self.paused.contains(topic, partition)
    }

    /// Every partition that this consumer holds, in order.
    pub fn assignments(&self) -> (keys: Vec<TopicPartition>)
        requires
            self.well_formed(),
        ensures
            group::slots_of(keys@) == slots::keys_of(self@.positions.dom()),
            slots::key_list(group::slots_of(keys@), self@.positions.dom()),
    {
        self.positions.keys()
    }

    /// What may be committed: for each partition **the next offset to read**.
    pub fn positions(&self) -> (positions: &SlotMap<i64>)
        requires
            self.well_formed(),
        ensures
            positions.well_formed(),
            positions@ == self@.positions,
    {
        &self.positions
    }

    /// Where a partition's next fetch starts.
    pub fn position_of(&self, topic: &str, partition: i32) -> (offset: Option<i64>)
        requires
            self.well_formed(),
        ensures
            offset == if self@.positions.dom().contains((topic@, partition)) {
                Some(self@.positions[(topic@, partition)])
            } else {
                None
            },
    {
        match self.positions.get(topic, partition) {
            Some(offset) => Some(*offset),
            None => None,
        }
    }

    /// Where the next fetch starts, for a consumer of exactly one partition: with
    /// several, "the position" is no question that has an answer.
    pub fn position(&self) -> (offset: i64)
        requires
            self.well_formed(),
            slots::keys_of(self@.positions.dom()).len() == 1,
        ensures
            offset == self@.positions[slots::keys_of(self@.positions.dom())[0]],
    {
        let entries = self.positions.entries();
        proof {
            slots::lemma_entry_keys(entries@);
            slots::lemma_at(entries@, 0);
        }
        entries[0].1
    }

    /// Moves a partition to an offset, as when a checkpoint is restored.
    pub fn seek_to(&mut self, topic: &str, partition: i32, offset: i64)
        requires
            old(self).well_formed(),
        ensures
            final(self).well_formed(),
            final(self)@ == (Reading {
                positions: old(self)@.positions.insert((topic@, partition), offset),
                ..old(self)@
            }).next_generation(),
    {
        self.positions.insert(topic, partition, offset);
        self.generation = self.generation.wrapping_add(1);
    }

    /// Moves to an offset, for a consumer of exactly one partition.
    pub fn seek(&mut self, offset: i64)
        requires
            old(self).well_formed(),
            slots::keys_of(old(self)@.positions.dom()).len() == 1,
        ensures
            final(self).well_formed(),
            final(self)@ == (Reading {
                positions: old(self)@.positions.insert(
                    slots::keys_of(old(self)@.positions.dom())[0],
                    offset,
                ),
                ..old(self)@
            }).next_generation(),
    {
        let keys = self.positions.keys();
        assert(group::slots_of(keys@)[0] == keys@[0]@);
        self.seek_to(keys[0].topic.as_str(), keys[0].partition, offset);
    }

    /// Sets the offset that a lookup found.
    pub fn resolve(&mut self, topic: &str, partition: i32, offset: i64)
        requires
            old(self).well_formed(),
        ensures
            final(self).well_formed(),
            final(self)@ == (Reading {
                positions: old(self)@.positions.insert((topic@, partition), offset),
                ..old(self)@
            }),
    {
        self.positions.insert(topic, partition, offset);
    }

    /// Uses incremental fetch sessions, or has every fetch restate every partition.
    pub fn set_incremental_fetch(&mut self, incremental: bool)
        requires
            old(self).well_formed(),
        ensures
            final(self).well_formed(),
            final(self)@ == (Reading {
                incremental,
                sessions: if incremental {
                    old(self)@.sessions
                } else {
                    Map::empty()
                },
                ..old(self)@
            }).next_generation(),
    {
        self.incremental = incremental;
        if !incremental {
            self.sessions.clear();
            assert(self@.sessions =~= Map::empty());
        }
        self.generation = self.generation.wrapping_add(1);
    }

    /// Keeps a fetch in flight, which overlaps the network with the caller's work.
    pub fn set_prefetch(&mut self, prefetch: bool)
        requires
            old(self).well_formed(),
        ensures
            final(self).well_formed(),
            final(self)@ == (Reading { prefetch, ..old(self)@ }).next_generation(),
    {
        self.prefetch = prefetch;
        self.generation = self.generation.wrapping_add(1);
    }

    /// What is read of transactions.
    pub fn isolation(&self) -> (isolation: IsolationLevel)
        ensures
            isolation == self@.isolation,
    {
        self.isolation
    }

    /// How long a fetch waits for data before it returns empty, in milliseconds.
    pub fn set_max_wait(&mut self, ms: u64)
        requires
            old(self).well_formed(),
        ensures
            final(self).well_formed(),
            final(self)@ == (Reading {
                max_wait_ms: if ms <= i32::MAX {
                    ms as i32
                } else {
                    i32::MAX
                },
                ..old(self)@
            }).next_generation(),
    {
        self.max_wait_ms = if ms <= 0x7fff_ffff {
            ms as i32
        } else {
            i32::MAX
        };
        self.generation = self.generation.wrapping_add(1);
    }
}

/// The value of a key, if it has one.
pub open spec fn looked_up(map: Map<(Seq<char>, i32), i64>, slot: (Seq<char>, i32)) -> Option<i64> {
    if map.dom().contains(slot) {
        Some(map[slot])
    } else {
        None
    }
}

/// Those of the first `n` partitions that are not paused.
pub open spec fn unpaused(
    keys: Seq<(Seq<char>, i32)>,
    paused: Set<(Seq<char>, i32)>,
    n: nat,
) -> Seq<(Seq<char>, i32)>
    decreases n,
{
    if n == 0 {
        Seq::empty()
    } else {
        let earlier = unpaused(keys, paused, (n - 1) as nat);
        if paused.contains(keys[n - 1]) {
            earlier
        } else {
            earlier.push(keys[n - 1])
        }
    }
}

impl Reading {
    /// What a fetch may ask about: what is assigned and not paused, in order.
    pub open spec fn fetchable(self) -> Seq<(Seq<char>, i32)> {
        let keys = slots::keys_of(self.positions.dom());
        unpaused(keys, self.paused, keys.len())
    }

    /// Whether a fetch names only what changed since the broker last answered.
    pub open spec fn names_changes(self, addr: Seq<char>) -> bool {
        self.incremental && self.agreed(addr).id != 0
    }

    /// Whether a fetch names a partition.
    pub open spec fn names(self, addr: Seq<char>, slot: (Seq<char>, i32)) -> bool {
        !(self.names_changes(addr) && looked_up(self.agreed(addr).known, slot) == looked_up(
            self.positions,
            slot,
        ))
    }
}

/// Partitions, each with its broker's address.
pub open spec fn at_leaders(
    slots: Seq<(Seq<char>, i32)>,
    leaders: Seq<Seq<char>>,
) -> Seq<(Seq<char>, (Seq<char>, i32))> {
    Seq::new(slots.len(), |i: int| (leaders[i], slots[i]))
}

/// One partition in a fetch.
#[derive(Debug, Clone, Copy, PartialEq, Eq, Structural)]
pub struct FetchEntry {
    pub partition: i32,
    pub fetch_offset: i64,
    pub max_bytes: i32,
    pub current_leader_epoch: i32,
    pub log_start_offset: i64,
}

/// One fetch, for one broker.
#[derive(Debug)]
pub struct FetchRequest {
    pub replica_id: i32,
    pub max_wait_ms: i32,
    pub min_bytes: i32,
    pub max_bytes: i32,
    pub isolation_level: i8,
    pub session_id: i32,
    /// -1 says that there is no session and none is wanted.
    pub session_epoch: i32,
    /// By topic.
    pub topics: Vec<(String, Vec<FetchEntry>)>,
}

/// The entries of a fetch for the first `n` partitions.
pub open spec fn fetch_entries(
    reading: Reading,
    addr: Seq<char>,
    slots: Seq<(Seq<char>, i32)>,
    n: nat,
) -> Seq<(Seq<char>, FetchEntry)>
    decreases n,
{
    if n == 0 {
        Seq::empty()
    } else {
        let earlier = fetch_entries(reading, addr, slots, (n - 1) as nat);
        let slot = slots[n - 1];
        if reading.names(addr, slot) {
            earlier.push(
                (
                    slot.0,
                    FetchEntry {
                        partition: slot.1,
                        fetch_offset: match looked_up(reading.positions, slot) {
                            Some(offset) => offset,
                            None => 0,
                        },
                        max_bytes: reading.max_bytes,
                        current_leader_epoch: -1i32,
                        log_start_offset: -1i64,
                    },
                ),
            )
        } else {
            earlier
        }
    }
}

impl Consumer {
    /// What a fetch may ask about: what is assigned and not paused, in order.
    pub fn fetchable(&self) -> (keys: Vec<TopicPartition>)
        requires
            self.well_formed(),
        ensures
            group::slots_of(keys@) == self@.fetchable(),
    {
        let all = self.positions.keys();
        let ghost slots = group::slots_of(all@);
        let mut keys: Vec<TopicPartition> = Vec::new();
        assert(group::slots_of(keys@) =~= Seq::empty());
        let mut i: usize = 0;
        while i < all.len()
            invariant
                i <= all@.len(),
                slots == group::slots_of(all@),
                group::slots_of(keys@) == unpaused(slots, self@.paused, i as nat),
            decreases all@.len() - i,
        {
            let ghost earlier = keys@;
            assert(slots[i as int] == all@[i as int]@);
            if !self.paused.contains(all[i].topic.as_str(), all[i].partition) {
                keys.push(all[i].clone());
                assert(group::slots_of(keys@) =~= group::slots_of(earlier).push(
                    slots[i as int],
                ));
            }
            i = i + 1;
        }
        keys
    }

    /// Groups what is fetched by the broker that leads it: `leaders` has an address for
    /// each partition, in the order of [`Consumer::fetchable`].
    pub fn by_broker(&self, leaders: Vec<String>) -> (groups: Vec<(String, Vec<TopicPartition>)>)
        requires
            self.well_formed(),
            leaders@.len() == self@.fetchable().len(),
        ensures
            grouping::groups_of(
                at_leaders(self@.fetchable(), names::names_of(leaders@)),
                asked_of(groups@),
            ),
    {
        let keys = self.fetchable();
        let ghost all = group::slots_of(keys@);
        let ghost given = leaders@;
        let total: usize = keys.len();
        let mut pairs: Vec<(String, TopicPartition)> = Vec::new();
        let mut i: usize = 0;
        for leader in it: leaders
            invariant
                it.seq() == given,
                given.len() == total,
                total == keys@.len(),
                i == it.index(),
                pairs@.len() == i,
                forall|k: int|
                    0 <= k < i ==> (#[trigger] pairs@[k]).0@ == given[k]@ && pairs@[k].1@
                        == keys@[k]@,
        {
            pairs.push((leader, keys[i].clone()));
            i = i + 1;
        }
        let ghost entries = grouping::entry_views(pairs@);
        let groups = grouping::grouped(pairs);
        proof {
            let f = |tp: TopicPartition| tp@;
            let found = grouping::group_views(groups@);
            let mapped = at_leaders(all, names::names_of(given));
            let mapped_groups = asked_of(groups@);
            assert forall|k: int| 0 <= k < entries.len() implies #[trigger] mapped[k] == (
                entries[k].0,
                f(entries[k].1),
            ) by {
                assert(pairs@[k].0@ == given[k]@);
                assert(all[k] == keys@[k]@);
            }
            assert forall|g: int| 0 <= g < found.len() implies #[trigger] mapped_groups[g] == (
                found[g].0,
                found[g].1.map_values(f),
            ) by {
                assert(group::slots_of(groups@[g].1@) =~= groups@[g].1@.map_values(f));
            }
            grouping::lemma_groups_mapped(entries, found, mapped, mapped_groups, f);
        }
        groups
    }

    /// The fetch for one broker and its partitions. With a session open, only those
    /// whose position moved since the last accepted answer are named.
    pub fn fetch_request(&self, addr: &str, partitions: &Vec<TopicPartition>) -> (request:
        FetchRequest)
        requires
            self.well_formed(),
        ensures
            request.replica_id == -1,
            request.max_wait_ms == self@.max_wait_ms,
            request.min_bytes == 1,
            request.max_bytes == self@.max_response_bytes,
            request.isolation_level == consumer::isolation_number(self@.isolation),
            request.session_id == if self@.incremental {
                self@.agreed(addr@).id
            } else {
                0
            },
            request.session_epoch == if self@.incremental {
                self@.agreed(addr@).epoch
            } else {
                -1i32
            },
            grouping::groups_of(
                fetch_entries(self@, addr@, group::slots_of(partitions@), partitions@.len()),
                grouping::group_views(request.topics@),
            ),
    {
        let ghost all = group::slots_of(partitions@);
        let session = self.sessions.get(addr);
        let (id, epoch): (i32, i32) = match session {
            Some(s) => (s.id, s.epoch),
            None => (0, 0),
        };
        let changes_only = self.incremental && id != 0;
        let mut entries: Vec<(String, FetchEntry)> = Vec::new();
        assert(grouping::entry_views(entries@) =~= Seq::empty());
        let mut i: usize = 0;
        while i < partitions.len()
            invariant
                self.well_formed(),
                i <= partitions@.len(),
                all == group::slots_of(partitions@),
                match session {
                    Some(s) => self.sessions@.dom().contains(addr@) && *s == self.sessions@[addr@]
                        && id == s.id,
                    None => !self.sessions@.dom().contains(addr@) && id == 0,
                },
                changes_only == (self.incremental && id != 0),
                grouping::entry_views(entries@) == fetch_entries(self@, addr@, all, i as nat),
            decreases partitions@.len() - i,
        {
            let topic = partitions[i].topic.as_str();
            let partition: i32 = partitions[i].partition;
            let ghost slot = all[i as int];
            assert(slot == partitions@[i as int]@);
            let current: Option<i64> = self.position_of(topic, partition);
            let known: Option<i64> = match session {
                Some(s) => match s.known.get(topic, partition) {
                    Some(offset) => Some(*offset),
                    None => None,
                },
                None => None,
            };
            proof {
                assert(known == looked_up(self@.agreed(addr@).known, slot));
                assert(current == looked_up(self@.positions, slot));
            }
            let same = match (known, current) {
                (Some(a), Some(b)) => a == b,
                (None, None) => true,
                _ => false,
            };
            let ghost earlier = entries@;
            if !(changes_only && same) {
                let fetch_offset: i64 = match current {
                    Some(offset) => offset,
                    None => 0,
                };
                let entry = FetchEntry {
                    partition,
                    fetch_offset,
                    max_bytes: self.max_bytes,
                    current_leader_epoch: -1i32,
                    log_start_offset: -1i64,
                };
                entries.push((partitions[i].topic.clone(), entry));
                assert(grouping::entry_views(entries@) =~= grouping::entry_views(earlier).push(
                    (slot.0, entry),
                ));
            }
            i = i + 1;
        }
        FetchRequest {
            replica_id: -1,
            max_wait_ms: self.max_wait_ms,
            min_bytes: 1,
            max_bytes: self.max_response_bytes,
            isolation_level: self.isolation.as_i8(),
            session_id: if self.incremental {
                id
            } else {
                0
            },
            session_epoch: if self.incremental {
                epoch
            } else {
                -1
            },
            topics: grouping::grouped(entries),
        }
    }

    /// Records what was sent: those answers are outstanding whether or not the rest
    /// went out.
    pub fn on_sent(&mut self, groups: Vec<(String, Vec<TopicPartition>)>)
        requires
            old(self).well_formed(),
        ensures
            final(self).well_formed(),
            final(self)@ == if groups@.len() == 0 {
                old(self)@
            } else {
                Reading {
                    outstanding: Some(
                        Asked {
                            groups: asked_of(groups@),
                            generation: old(self)@.generation,
                        },
                    ),
                    ..old(self)@
                }
            },
    {
        if groups.len() > 0 {
            self.outstanding = Some(Outstanding { groups, generation: self.generation });
        }
    }

    /// Whether a fetch is in flight whose question is no longer the one being asked.
    pub fn is_stale(&self) -> (yes: bool)
        ensures
            yes == (self@.outstanding matches Some(asked) && asked.generation
                != self@.generation),
    {
        match &self.outstanding {
            Some(o) => o.generation != self.generation,
            None => false,
        }
    }

    /// Whether a fetch is in flight.
    pub fn is_fetching(&self) -> (yes: bool)
        ensures
            yes == self@.outstanding is Some,
    {
        self.outstanding.is_some()
    }

    /// Takes the fetch in flight, to be collected: each broker, and what it was asked.
    pub fn collect(&mut self) -> (groups: Vec<(String, Vec<TopicPartition>)>)
        requires
            old(self).well_formed(),
        ensures
            final(self).well_formed(),
            final(self)@ == (Reading { outstanding: None, ..old(self)@ }),
            asked_of(groups@) == match old(self)@.outstanding {
                Some(asked) => asked.groups,
                None => Seq::empty(),
            },
    {
        match self.outstanding.take() {
            Some(o) => o.groups,
            None => {
                let groups: Vec<(String, Vec<TopicPartition>)> = Vec::new();
                assert(asked_of(groups@) =~= Seq::empty());
                groups
            },
        }
    }

    /// Takes the fetch in flight, to be thrown away: the brokers whose answers are to be
    /// read and dropped. Each broker advanced its own view when it answered, so the next
    /// fetch is a full one.
    pub fn discard(&mut self) -> (groups: Vec<(String, Vec<TopicPartition>)>)
        requires
            old(self).well_formed(),
        ensures
            final(self).well_formed(),
            final(self)@ == if old(self)@.outstanding is Some {
                Reading { outstanding: None, sessions: Map::empty(), ..old(self)@ }
            } else {
                old(self)@
            },
            asked_of(groups@) == match old(self)@.outstanding {
                Some(asked) => asked.groups,
                None => Seq::empty(),
            },
    {
        if self.outstanding.is_some() {
            self.sessions.clear();
            assert(self@.sessions =~= Map::empty());
        }
        self.collect()
    }

    /// What a poll does next, once membership is settled. A consumer whose every
    /// partition is paused has an assignment and nothing to fetch; a fetch that was sent
    /// for other positions is thrown away, and one that is out is received.
    pub fn poll_step(&self) -> (step: PollStep)
        requires
            self.well_formed(),
        ensures
            step == if self@.fetchable().len() == 0 {
                PollStep::Nothing
            } else {
                match self@.outstanding {
                    None => PollStep::Send,
                    Some(asked) => if asked.generation != self@.generation {
                        PollStep::Discard
                    } else {
                        PollStep::Receive
                    },
                }
            },
    {
        if self.fetchable().len() == 0 {
            PollStep::Nothing
        } else if !self.is_fetching() {
            PollStep::Send
        } else if self.is_stale() {
            PollStep::Discard
        } else {
            PollStep::Receive
        }
    }

    /// Whether to put the next fetch in flight already.
    pub fn wants_prefetch(&self) -> (yes: bool)
        requires
            self.well_formed(),
        ensures
            yes == (self@.prefetch && self@.fetchable().len() > 0),
    {
        self.prefetch && self.fetchable().len() > 0
    }
}

/// What a poll does next.
#[derive(Debug, Clone, Copy, PartialEq, Eq, Structural)]
pub enum PollStep {
    /// There is nothing to fetch: return no records.
    Nothing,
    /// Read the fetch that is out, and throw it away.
    Discard,
    /// Send a fetch to every leader.
    Send,
    /// Read the fetch that is out.
    Receive,
}

/// What one partition yielded.
#[derive(Debug)]
pub struct ConsumerRecords {
    pub topic: String,
    pub partition: i32,
    /// The batches as the lean reader read them.
    pub batches: Vec<LeanBatch>,
    /// Records of batches that the lean reader handed back, read the general way.
    pub fallback: Vec<Record>,
}

/// What a [`ConsumerRecords`] stands for.
pub ghost struct Yield {
    pub slot: (Seq<char>, i32),
    pub batches: Seq<records::Batch>,
    pub fallback: Seq<consumer::FullRecord>,
}

impl View for ConsumerRecords {
    type V = Yield;

    open spec fn view(&self) -> Yield {
        Yield {
            slot: (self.topic@, self.partition),
            batches: records::views(self.batches@),
            fallback: consumer::full_records(self.fallback@),
        }
    }
}

/// What a list of yields stands for.
pub open spec fn yields_of(list: Seq<ConsumerRecords>) -> Seq<Yield> {
    Seq::new(list.len(), |i: int| list[i]@)
}

/// What a broker answered for one partition.
#[derive(Debug)]
pub struct PartitionFetch {
    pub slot: TopicPartition,
    pub code: i16,
    pub disposition: Disposition,
    pub last_stable_offset: i64,
    pub aborted: Vec<AbortedTransaction>,
    pub records: Option<Bytes>,
}

/// What a [`PartitionFetch`] stands for.
pub ghost struct Arrived {
    pub slot: (Seq<char>, i32),
    pub code: i16,
    pub disposition: Disposition,
    pub last_stable_offset: i64,
    pub aborted: Seq<AbortedTransaction>,
    pub records: Option<Seq<u8>>,
}

impl View for PartitionFetch {
    type V = Arrived;

    open spec fn view(&self) -> Arrived {
        Arrived {
            slot: self.slot@,
            code: self.code,
            disposition: self.disposition,
            last_stable_offset: self.last_stable_offset,
            aborted: self.aborted@,
            records: records::optional_contents(self.records),
        }
    }
}

/// A broker's answer to a fetch.
#[derive(Debug)]
pub struct FetchAnswer {
    pub code: i16,
    pub disposition: Disposition,
    pub session_id: i32,
    pub parts: Vec<PartitionFetch>,
}

/// What a list of partitions' answers stands for.
pub open spec fn arrivals(parts: Seq<PartitionFetch>) -> Seq<Arrived> {
    Seq::new(parts.len(), |i: int| parts[i]@)
}

/// The bytes are wrong.
pub open spec fn codec_fault(fault: Flaw) -> Fault {
    Fault::Core(fault)
}

/// Whether a control batch is larger than a marker's place in it can be told.
pub open spec fn oversized(batches: Seq<records::Batch>) -> bool {
    exists|i: int|
        0 <= i < batches.len() && (#[trigger] batches[i]).control && batches[i].body.len()
            > records::ABSENT
}

impl Reading {
    /// After the records of one partition were read and filtered: where its next fetch
    /// starts, and what it yields, if that is anything.
    pub open spec fn yielding(
        self,
        slot: (Seq<char>, i32),
        next_offset: i64,
        batches: Seq<records::Batch>,
        fallback: Seq<consumer::FullRecord>,
    ) -> (Reading, Option<Yield>) {
        (
            Reading { positions: self.positions.insert(slot, next_offset), ..self },
            if batches.len() > 0 || fallback.len() > 0 {
                Some(Yield { slot, batches, fallback })
            } else {
                None
            },
        )
    }

    /// After batches of one partition were filtered.
    pub open spec fn with_batches(self, part: Arrived, batches: Seq<records::Batch>) -> (
        Reading,
        Option<Yield>,
    ) {
        let from = self.positions[part.slot];
        let all = records::nonempty(batches);
        let n = consumer::stable_len(
            records::batch_steps(all),
            self.isolation,
            part.last_stable_offset,
            0,
        );
        self.yielding(
            part.slot,
            records::batch_position(all, n, part.last_stable_offset, self.isolation, from),
            records::left_of(
                all,
                part.aborted,
                part.last_stable_offset,
                self.isolation,
                from,
                n,
            ),
            Seq::empty(),
        )
    }

    /// After records of one partition, read the general way, were filtered.
    pub open spec fn with_records(self, part: Arrived, list: Seq<consumer::FullRecord>) -> (
        Reading,
        Option<Yield>,
    ) {
        let from = self.positions[part.slot];
        let n = consumer::stable_len(
            consumer::record_steps(list),
            self.isolation,
            part.last_stable_offset,
            0,
        );
        self.yielding(
            part.slot,
            consumer::position_after(list, n, from),
            Seq::empty(),
            consumer::visible_among(list, part.aborted, self.isolation, from, n),
        )
    }

    /// After one partition's answer: what changed and what it yields, or why it failed.
    /// A partition that is no longer held, or that brought nothing, changes nothing.
    pub open spec fn taken(self, part: Arrived) -> Result<(Reading, Option<Yield>), Fault> {
        if part.code != 0 {
            Err(Fault::Broker("Fetch partition"@, part.code, part.disposition))
        } else if !self.positions.dom().contains(part.slot) || batch_len(part.records) == 0 {
            Ok((self, None))
        } else {
            let s = part.records.unwrap();
            match records::batches_from(s, 0) {
                Err(e) => Err(codec_fault(e)),
                Ok(None) => match general::records_from(s, 0) {
                    Err(e) => Err(codec_fault(e)),
                    Ok(list) => Ok(self.with_records(part, list)),
                },
                Ok(Some(batches)) => if oversized(batches) {
                    Err(codec_fault(Flaw::ControlBatchLength))
                } else {
                    Ok(self.with_batches(part, batches))
                },
            }
        }
    }

    /// After the first `n` partitions' answers. One that failed takes the others with it:
    /// the caller is handed nothing, and so nothing moves.
    pub open spec fn taken_all(self, parts: Seq<Arrived>, n: nat) -> (
        Reading,
        Result<Seq<Yield>, Fault>,
    )
        decreases n,
    {
        if n == 0 {
            (self, Ok(Seq::empty()))
        } else {
            let (reading, so_far) = self.taken_all(parts, (n - 1) as nat);
            match so_far {
                Err(e) => (self, Err(e)),
                Ok(list) => match reading.taken(parts[n - 1]) {
                    Err(e) => (self, Err(e)),
                    Ok((next, None)) => (next, Ok(list)),
                    Ok((next, Some(yielded))) => (next, Ok(list.push(yielded))),
                },
            }
        }
    }

    /// After a broker accepted a fetch: the session goes on, and the broker knows where
    /// this consumer stands on what it was asked about.
    pub open spec fn agreeing(
        self,
        addr: Seq<char>,
        session_id: i32,
        slots: Seq<(Seq<char>, i32)>,
    ) -> Reading {
        if self.incremental {
            let before = self.agreed(addr);
            let next = before.epoch.wrapping_add(1);
            Reading {
                sessions: self.sessions.insert(
                    addr,
                    Agreement {
                        id: session_id,
                        epoch: if next < 1 {
                            1
                        } else {
                            next
                        },
                        known: known_after(before.known, self.positions, slots, slots.len()),
                    },
                ),
                ..self
            }
        } else {
            self
        }
    }

    /// After a broker's answer to a fetch.
    pub open spec fn answered(
        self,
        addr: Seq<char>,
        slots: Seq<(Seq<char>, i32)>,
        code: i16,
        disposition: Disposition,
        session_id: i32,
        parts: Seq<Arrived>,
    ) -> (Reading, Result<Seq<Yield>, Fault>) {
        if code == FETCH_SESSION_ID_NOT_FOUND || code == INVALID_FETCH_SESSION_EPOCH {
            (
                Reading { sessions: self.sessions.insert(addr, no_agreement()), ..self },
                Ok(Seq::empty()),
            )
        } else if code != 0 {
            (self, Err(Fault::Broker("Fetch"@, code, disposition)))
        } else {
            self.agreeing(addr, session_id, slots).taken_all(parts, parts.len())
        }
    }

    /// After the answers of the first `n` brokers of a poll: what each yields, broker by
    /// broker, or the first trouble.
    pub open spec fn heard(self, replies: Seq<Heard>, n: nat) -> Result<
        (Reading, Seq<Yield>),
        Trouble,
    >
        decreases n,
    {
        if n == 0 {
            Ok((self, Seq::empty()))
        } else {
            match self.heard(replies, (n - 1) as nat) {
                Err(trouble) => Err(trouble),
                Ok((reading, list)) => match replies[n - 1].answer {
                    None => Err(Trouble::Unread((n - 1) as nat)),
                    Some(answer) => match reading.answered(
                        replies[n - 1].addr,
                        replies[n - 1].slots,
                        answer.code,
                        answer.disposition,
                        answer.session_id,
                        answer.parts,
                    ) {
                        (_, Err(fault)) => Err(Trouble::Failed(fault)),
                        (next, Ok(more)) => Ok((next, list + more)),
                    },
                },
            }
        }
    }

    /// After the answers of all brokers of a poll. Where one of them is trouble the caller
    /// is handed nothing, so no position moves, and every session starts over: the brokers
    /// take it that their records arrived.
    pub open spec fn polled(self, replies: Seq<Heard>) -> (Reading, Result<Seq<Yield>, Trouble>) {
        match self.heard(replies, replies.len()) {
            Ok((reading, list)) => (reading, Ok(list)),
            Err(trouble) => (Reading { sessions: Map::empty(), ..self }, Err(trouble)),
        }
    }
}

/// What a [`FetchAnswer`] stands for.
pub ghost struct Told {
    pub code: i16,
    pub disposition: Disposition,
    pub session_id: i32,
    pub parts: Seq<Arrived>,
}

/// What a [`BrokerReply`] stands for.
pub ghost struct Heard {
    pub addr: Seq<char>,
    pub slots: Seq<(Seq<char>, i32)>,
    pub answer: Option<Told>,
}

/// Why a poll handed out nothing.
pub ghost enum Trouble {
    /// A broker's answer is a failure.
    Failed(Fault),
    /// The answer of the broker with this index could not be read.
    Unread(nat),
}

/// What came back from one of the brokers of a poll.
#[derive(Debug)]
pub struct BrokerReply {
    pub addr: String,
    /// The partitions that the broker was asked for.
    pub partitions: Vec<TopicPartition>,
    /// The answer, if it could be read.
    pub answer: Option<FetchAnswer>,
}

impl View for BrokerReply {
    type V = Heard;

    open spec fn view(&self) -> Heard {
        Heard {
            addr: self.addr@,
            slots: group::slots_of(self.partitions@),
            answer: match self.answer {
                Some(answer) => Some(
                    Told {
                        code: answer.code,
                        disposition: answer.disposition,
                        session_id: answer.session_id,
                        parts: arrivals(answer.parts@),
                    },
                ),
                None => None,
            },
        }
    }
}

/// What a list of replies stands for.
pub open spec fn heard_of(replies: Seq<BrokerReply>) -> Seq<Heard> {
    Seq::new(replies.len(), |i: int| replies[i]@)
}

/// What became of a poll.
#[derive(Debug)]
pub enum Polled {
    Records(Vec<ConsumerRecords>),
    /// A broker's answer is a failure.
    Failed(Error),
    /// The answer of the broker with this index could not be read.
    Unread(usize),
}

impl Polled {
    /// What a poll handed out, or why it handed out nothing.
    pub open spec fn outcome(self) -> Result<Seq<Yield>, Trouble> {
        match self {
            Polled::Records(list) => Ok(yields_of(list@)),
            Polled::Failed(e) => Err(Trouble::Failed(e@)),
            Polled::Unread(i) => Err(Trouble::Unread(i as nat)),
        }
    }
}

pub open spec fn batch_len(records: Option<Seq<u8>>) -> nat {
    match records {
        Some(s) => s.len(),
        None => 0,
    }
}

/// What a broker knows once it was told of the first `n` partitions.
pub open spec fn known_after(
    known: Map<(Seq<char>, i32), i64>,
    positions: Map<(Seq<char>, i32), i64>,
    slots: Seq<(Seq<char>, i32)>,
    n: nat,
) -> Map<(Seq<char>, i32), i64>
    decreases n,
{
    if n == 0 {
        known
    } else {
        let earlier = known_after(known, positions, slots, (n - 1) as nat);
        if positions.dom().contains(slots[n - 1]) {
            earlier.insert(slots[n - 1], positions[slots[n - 1]])
        } else {
            earlier
        }
    }
}

/// What became of one partition's answer.
pub open spec fn yielded(result: Result<Option<ConsumerRecords>, Error>) -> Result<
    Option<Yield>,
    Fault,
> {
    match result {
        Ok(Some(list)) => Ok(Some(list@)),
        Ok(None) => Ok(None),
        Err(e) => Err(e@),
    }
}

/// Whether a control batch is larger than a marker's place in it can be told.
fn is_oversized(batches: &Vec<LeanBatch>) -> (yes: bool)
    ensures
        yes == oversized(records::views(batches@)),
{
    let ghost views = records::views(batches@);
    let mut i: usize = 0;
    while i < batches.len()
        invariant
            i <= batches@.len(),
            views == records::views(batches@),
            forall|k: int|
                0 <= k < i ==> !((#[trigger] views[k]).control && views[k].body.len()
                    > records::ABSENT),
        decreases batches@.len() - i,
    {
        assert(views[i as int] == batches@[i as int]@);
        if batches[i].control && buffer::len(&batches[i].buffer) as u64 > records::ABSENT as u64 {
            return true;
        }
        i = i + 1;
    }
    false
}

impl Consumer {
    /// Takes batches that were read for one partition: filters them, and moves the
    /// position past what was dropped too.
    pub fn take_batches(
        &mut self,
        part: &PartitionFetch,
        batches: Vec<LeanBatch>,
        from: i64,
    ) -> (list: Option<ConsumerRecords>)
        requires
            old(self).well_formed(),
            old(self)@.positions.dom().contains(part.slot@),
            old(self)@.positions[part.slot@] == from,
            !oversized(records::views(batches@)),
            forall|i: int| 0 <= i < batches@.len() ==> records::sound(#[trigger] batches@[i]@),
        ensures
            final(self).well_formed(),
            ({
                let (after, yielded) = old(self)@.with_batches(part@, records::views(batches@));
                final(self)@ == after && yielded == match list {
                    Some(l) => Some(l@),
                    None => None,
                }
            }),
    {
        proof {
            let views = records::views(batches@);
            assert forall|i: int| 0 <= i < batches@.len() && (#[trigger] batches@[i]).control implies
                batches@[i]@.well_formed() by {
                assert(views[i] == batches@[i]@);
                assert(records::sound(batches@[i]@));
            }
        }
        let (kept, next_offset) = records::filter_batches(
            batches,
            part.aborted.as_slice(),
            part.last_stable_offset,
            self.isolation,
            from,
        );
        self.positions.insert(part.slot.topic.as_str(), part.slot.partition, next_offset);
        assert(records::views(kept@).len() == kept@.len());
        if kept.len() == 0 {
            return None;
        }
        let list = ConsumerRecords {
            topic: part.slot.topic.clone(),
            partition: part.slot.partition,
            batches: kept,
            fallback: Vec::new(),
        };
        assert(list@.fallback =~= Seq::empty());
        Some(list)
    }

    /// Takes records that were read the general way for one partition: filters them,
    /// and moves the position past what was dropped too.
    pub fn take_records(&mut self, part: &PartitionFetch, records: Vec<Record>, from: i64) -> (list:
        Option<ConsumerRecords>)
        requires
            old(self).well_formed(),
            old(self)@.positions.dom().contains(part.slot@),
            old(self)@.positions[part.slot@] == from,
        ensures
            final(self).well_formed(),
            ({
                let (after, yielded) = old(self)@.with_records(
                    part@,
                    consumer::full_records(records@),
                );
                final(self)@ == after && yielded == match list {
                    Some(l) => Some(l@),
                    None => None,
                }
            }),
    {
        let fetched = consumer::filter(
            records,
            part.aborted.as_slice(),
            part.last_stable_offset,
            self.isolation,
            from,
        );
        self.positions.insert(part.slot.topic.as_str(), part.slot.partition, fetched.next_offset);
        assert(consumer::full_records(fetched.records@).len() == fetched.records@.len());
        if fetched.records.len() == 0 {
            return None;
        }
        let list = ConsumerRecords {
            topic: part.slot.topic.clone(),
            partition: part.slot.partition,
            batches: Vec::new(),
            fallback: fetched.records,
        };
        assert(list@.batches =~= Seq::empty());
        Some(list)
    }

    /// Takes one partition's answer.
    pub fn take(&mut self, part: &PartitionFetch) -> (list: Result<Option<ConsumerRecords>, Error>)
        requires
            old(self).well_formed(),
        ensures
            final(self).well_formed(),
            match old(self)@.taken(part@) {
                Ok((after, got)) => final(self)@ == after && yielded(list) == Ok::<
                    Option<Yield>,
                    Fault,
                >(got),
                Err(e) => final(self)@ == old(self)@ && yielded(list) == Err::<
                    Option<Yield>,
                    Fault,
                >(e),
            },
    {
        match client::check("Fetch partition", part.code, part.disposition) {
            Ok(()) => {},
            Err(e) => {
                return Err(e);
            },
        }
        let from: i64 = match self.position_of(part.slot.topic.as_str(), part.slot.partition) {
            Some(offset) => offset,
            None => {
                return Ok(None);
            },
        };
        let bytes = match &part.records {
            Some(bytes) => bytes,
            None => {
                return Ok(None);
            },
        };
        if buffer::len(bytes) == 0 {
            return Ok(None);
        }
        match records::decode_lean(bytes) {
            Err(e) => Err(Error::Core(e)),
            Ok(None) => match general::decode_records(bytes) {
                Err(e) => Err(e),
                Ok(list) => Ok(self.take_records(part, list, from)),
            },
            Ok(Some(batches)) => if is_oversized(&batches) {
                Err(Error::Core(error::Error::Codec(CodecFault::ControlBatchLength)))
            } else {
                Ok(self.take_batches(part, batches, from))
            },
        }
    }

    /// Records that a broker accepted a fetch of these partitions.
    fn agree(&mut self, addr: &str, session_id: i32, partitions: &Vec<TopicPartition>)
        requires
            old(self).well_formed(),
        ensures
            final(self).well_formed(),
            final(self)@ == old(self)@.agreeing(addr@, session_id, group::slots_of(partitions@)),
    {
        if !self.incremental {
            return;
        }
        let ghost before = self@;
        let ghost held = self.sessions@;
        let ghost all = group::slots_of(partitions@);
        let mut session = match self.sessions.remove(addr) {
            Some(session) => session,
            None => Session::new(),
        };
        let ghost agreed = session@;
        assert(agreed == before.agreed(addr@));
        session.id = session_id;
        let next: i32 = session.epoch.wrapping_add(1);
        session.epoch = if next < 1 {
            1
        } else {
            next
        };
        let ghost epoch = session.epoch;
        let mut i: usize = 0;
        while i < partitions.len()
            invariant
                i <= partitions@.len(),
                all == group::slots_of(partitions@),
                session.well_formed(),
                self.positions.well_formed(),
                session.id == session_id,
                session.epoch == epoch,
                session.known@ == known_after(agreed.known, self.positions@, all, i as nat),
            decreases partitions@.len() - i,
        {
            let topic = partitions[i].topic.as_str();
            assert(all[i as int] == partitions@[i as int]@);
            if let Some(offset) = self.positions.get(topic, partitions[i].partition) {
                session.known.insert(topic, partitions[i].partition, *offset);
            }
            i = i + 1;
        }
        let ghost now = session@;
        self.sessions.insert(addr, session);
        proof {
            assert(self@.sessions =~= before.sessions.insert(addr@, now));
            assert forall|other: Seq<char>| #[trigger] self.sessions@.dom().contains(other) implies
                self.sessions@[other].well_formed() by {
                if other != addr@ {
                    assert(held.dom().contains(other));
                }
            }
        }
    }

    /// Takes a broker's answer to a fetch of these partitions. Where it fails no position
    /// has moved: what arrived for the other partitions is fetched again.
    ///
    /// A broker that forgot the session is no failure: the next fetch is a full one.
    pub fn on_fetch(
        &mut self,
        addr: &str,
        partitions: &Vec<TopicPartition>,
        answer: &FetchAnswer,
    ) -> (list: Result<Vec<ConsumerRecords>, Error>)
        requires
            old(self).well_formed(),
        ensures
            final(self).well_formed(),
            (final(self)@, all_yielded(list)) == old(self)@.answered(
                addr@,
                group::slots_of(partitions@),
                answer.code,
                answer.disposition,
                answer.session_id,
                arrivals(answer.parts@),
            ),
    {
        let ghost before = self@;
        let ghost held = self.sessions@;
        let mut list: Vec<ConsumerRecords> = Vec::new();
        assert(yields_of(list@) =~= Seq::empty());
        if answer.code == FETCH_SESSION_ID_NOT_FOUND || answer.code == INVALID_FETCH_SESSION_EPOCH {
            self.sessions.insert(addr, Session::new());
            proof {
                assert(self@.sessions =~= before.sessions.insert(addr@, no_agreement()));
                assert forall|other: Seq<char>| #[trigger]
                    self.sessions@.dom().contains(other) implies self.sessions@[other].well_formed() by {
                    if other != addr@ {
                        assert(held.dom().contains(other));
                    }
                }
            }
            return Ok(list);
        }
        match client::check("Fetch", answer.code, answer.disposition) {
            Ok(()) => {},
            Err(e) => {
                return Err(e);
            },
        }
        self.agree(addr, answer.session_id, partitions);
        let ghost start = self@;
        let positions = self.positions.copied();
        let ghost parts = arrivals(answer.parts@);
        let mut i: usize = 0;
        while i < answer.parts.len()
            invariant
                self.well_formed(),
                i <= answer.parts@.len(),
                answer.code == 0,
                before == old(self)@,
                start == before.agreeing(
                    addr@,
                    answer.session_id,
                    group::slots_of(partitions@),
                ),
                parts == arrivals(answer.parts@),
                positions.well_formed(),
                positions@ == start.positions,
                self@ == (Reading { positions: self@.positions, ..start }),
                start.taken_all(parts, i as nat) == (
                    self@,
                    Ok::<Seq<Yield>, Fault>(yields_of(list@)),
                ),
            decreases answer.parts@.len() - i,
        {
            let part = &answer.parts[i];
            assert(parts[i as int] == part@);
            let ghost earlier = list@;
            match self.take(part) {
                Err(e) => {
                    proof {
                        lemma_failed_stays(start, parts, (i + 1) as nat, parts.len());
                    }
                    self.positions = positions;
                    return Err(e);
                },
                Ok(None) => {},
                Ok(Some(records)) => {
                    list.push(records);
                    assert(yields_of(list@) =~= yields_of(earlier).push(records@));
                },
            }
            i = i + 1;
        }
        Ok(list)
    }

    /// Takes what came back from every broker of a poll: all of it, or, where one of the
    /// brokers is trouble, none.
    pub fn on_poll(&mut self, replies: &Vec<BrokerReply>) -> (polled: Polled)
        requires
            old(self).well_formed(),
        ensures
            final(self).well_formed(),
            (final(self)@, polled.outcome()) == old(self)@.polled(heard_of(replies@)),
    {
        let ghost before = self@;
        let ghost heard = heard_of(replies@);
        let positions = self.positions.copied();
        let mut list: Vec<ConsumerRecords> = Vec::new();
        assert(yields_of(list@) =~= Seq::empty());
        let mut i: usize = 0;
        while i < replies.len()
            invariant
                self.well_formed(),
                i <= replies@.len(),
                before == old(self)@,
                heard == heard_of(replies@),
                positions.well_formed(),
                positions@ == before.positions,
                self@ == (Reading {
                    positions: self@.positions,
                    sessions: self@.sessions,
                    ..before
                }),
                before.heard(heard, i as nat) == Ok::<(Reading, Seq<Yield>), Trouble>(
                    (self@, yields_of(list@)),
                ),
            decreases replies@.len() - i,
        {
            let reply = &replies[i];
            assert(heard[i as int] == reply@);
            let ghost earlier = list@;
            let ghost reading = self@;
            let answer = match &reply.answer {
                Some(answer) => answer,
                None => {
                    proof {
                        lemma_trouble_stays(before, heard, (i + 1) as nat, heard.len());
                    }
                    self.start_over(positions);
                    return Polled::Unread(i);
                },
            };
            proof {
                lemma_only_positions_and_sessions(reading, reply@);
            }
            match self.on_fetch(reply.addr.as_str(), &reply.partitions, answer) {
                Err(e) => {
                    proof {
                        lemma_trouble_stays(before, heard, (i + 1) as nat, heard.len());
                    }
                    self.start_over(positions);
                    return Polled::Failed(e);
                },
                Ok(mut more) => {
                    let ghost new = more@;
                    list.append(&mut more);
                    assert(yields_of(list@) =~= yields_of(earlier) + yields_of(new));
                },
            }
            i = i + 1;
        }
        Polled::Records(list)
    }

    /// Goes back to these positions, with no session.
    fn start_over(&mut self, positions: SlotMap<i64>)
        requires
            old(self).well_formed(),
            positions.well_formed(),
        ensures
            final(self).well_formed(),
            final(self)@ == (Reading {
                positions: positions@,
                sessions: Map::empty(),
                ..old(self)@
            }),
    {
        self.positions = positions;
        self.sessions.clear();
        assert(self@.sessions =~= Map::empty());
    }
}

proof fn lemma_trouble_stays(reading: Reading, replies: Seq<Heard>, n: nat, m: nat)
    requires
        n <= m,
        reading.heard(replies, n) is Err,
    ensures
        reading.heard(replies, m) == reading.heard(replies, n),
    decreases m,
{
    if n < m {
        lemma_trouble_stays(reading, replies, n, (m - 1) as nat);
    }
}

/// An answer changes positions and sessions, and nothing else.
proof fn lemma_only_positions_and_sessions(reading: Reading, reply: Heard)
    requires
        reply.answer is Some,
    ensures
        ({
            let answer = reply.answer.unwrap();
            let after = reading.answered(
                reply.addr,
                reply.slots,
                answer.code,
                answer.disposition,
                answer.session_id,
                answer.parts,
            ).0;
            after == (Reading {
                positions: after.positions,
                sessions: after.sessions,
                ..reading
            })
        }),
{
    let answer = reply.answer.unwrap();
    let start = reading.agreeing(reply.addr, answer.session_id, reply.slots);
    lemma_taken_all_moves_positions(start, answer.parts, answer.parts.len());
}

proof fn lemma_taken_all_moves_positions(reading: Reading, parts: Seq<Arrived>, n: nat)
    ensures
        ({
            let after = reading.taken_all(parts, n).0;
            after == (Reading { positions: after.positions, ..reading })
        }),
    decreases n,
{
    if n > 0 {
        lemma_taken_all_moves_positions(reading, parts, (n - 1) as nat);
    }
}

/// A broker's answer that fails moves no position, however much of it could be read.
pub proof fn law_a_failed_fetch_moves_no_position(
    reading: Reading,
    addr: Seq<char>,
    slots: Seq<(Seq<char>, i32)>,
    code: i16,
    disposition: Disposition,
    session_id: i32,
    parts: Seq<Arrived>,
)
    requires
        reading.answered(addr, slots, code, disposition, session_id, parts).1 is Err,
    ensures
        reading.answered(addr, slots, code, disposition, session_id, parts).0.positions
            == reading.positions,
{
}

/// A poll that fails moves no position: nothing that arrived counts as read unless the
/// caller was handed it.
pub proof fn law_a_failed_poll_moves_no_position(reading: Reading, replies: Seq<Heard>)
    requires
        reading.polled(replies).1 is Err,
    ensures
        reading.polled(replies).0.positions == reading.positions,
{
}

/// What became of a broker's answer.
pub open spec fn all_yielded(list: Result<Vec<ConsumerRecords>, Error>) -> Result<
    Seq<Yield>,
    Fault,
> {
    match list {
        Ok(l) => Ok(yields_of(l@)),
        Err(e) => Err(e@),
    }
}

proof fn lemma_failed_stays(reading: Reading, parts: Seq<Arrived>, n: nat, m: nat)
    requires
        n <= m,
        reading.taken_all(parts, n).1 is Err,
    ensures
        reading.taken_all(parts, m) == reading.taken_all(parts, n),
    decreases m,
{
    if n < m {
        lemma_failed_stays(reading, parts, n, (m - 1) as nat);
    }
}

/// How many steps of a group's protocol one call drives. It is bounded, so that a group
/// that cannot settle returns to the caller.
pub const MAX_STEPS: usize = 20;

/// How far driving a group's protocol has come. A call drives it until the member is
/// stable: a coordinator waits only so long for every member to come back, and a step
/// per poll would miss that.
#[derive(Debug, Clone, Copy, PartialEq, Eq, Structural)]
pub struct Advance {
    pub steps: usize,
    /// Whether the assignment changed.
    pub changed: bool,
}

impl Advance {
    pub fn new() -> (advance: Self)
        ensures
            advance == (Advance { steps: 0, changed: false }),
    {
        Advance { steps: 0, changed: false }
    }

    /// Takes a step's end, and says whether to take another.
    pub fn on_step(&mut self, settled: bool, changed: bool) -> (again: bool)
        requires
            old(self).steps < MAX_STEPS,
        ensures
            final(self).steps == old(self).steps + 1,
            final(self).changed == (old(self).changed || changed),
            again == (!settled && final(self).steps < MAX_STEPS),
    {
        self.steps = self.steps + 1;
        self.changed = self.changed || changed;
        !settled && self.steps < MAX_STEPS
    }
}

impl Reading {
    /// The partitions that a group assigned, each where the group committed, or where a
    /// partition starts that it never committed.
    pub open spec fn assigned(
        self,
        slots: Seq<(Seq<char>, i32)>,
        committed: Map<(Seq<char>, i32), i64>,
    ) -> Map<(Seq<char>, i32), i64> {
        Map::new(
            |slot: (Seq<char>, i32)| slots.contains(slot),
            |slot: (Seq<char>, i32)|
                match looked_up(committed, slot) {
                    Some(offset) => offset,
                    None => self.reset,
                },
        )
    }

    /// After partitions were lost. A pause does not survive that: if the partition came
    /// back, the pause would silently stop it.
    pub open spec fn without(self, slots: Seq<(Seq<char>, i32)>) -> Reading {
        Reading {
            positions: self.positions.remove_keys(slots.to_set()),
            paused: self.paused.difference(slots.to_set()),
            ..self
        }
    }
}

/// Those of the first `n` partitions whose offset must still be looked up.
pub open spec fn unresolved(
    positions: Map<(Seq<char>, i32), i64>,
    keys: Seq<(Seq<char>, i32)>,
    n: nat,
) -> Seq<((Seq<char>, i32), i64)>
    decreases n,
{
    if n == 0 {
        Seq::empty()
    } else {
        let earlier = unresolved(positions, keys, (n - 1) as nat);
        let offset = positions[keys[n - 1]];
        if offset == EARLIEST || offset == LATEST {
            earlier.push((keys[n - 1], offset))
        } else {
            earlier
        }
    }
}

/// What a list of partitions with a number each stands for.
pub open spec fn numbered(list: Seq<(TopicPartition, i64)>) -> Seq<((Seq<char>, i32), i64)> {
    Seq::new(list.len(), |i: int| (list[i].0@, list[i].1))
}

fn contains(list: &Vec<TopicPartition>, tp: &TopicPartition) -> (yes: bool)
    ensures
        yes == group::slots_of(list@).contains(tp@),
{
    let ghost all = group::slots_of(list@);
    let mut i: usize = 0;
    while i < list.len()
        invariant
            i <= list@.len(),
            all == group::slots_of(list@),
            forall|k: int| 0 <= k < i ==> all[k] != tp@,
        decreases list@.len() - i,
    {
        assert(all[i as int] == list@[i as int]@);
        if list[i].is(tp) {
            return true;
        }
        i = i + 1;
    }
    false
}

impl Consumer {
    /// Starts over as a member of a group, which will say what to read. `reset` is where
    /// a partition starts that the group never committed an offset for.
    pub fn subscribe(&mut self, reset: i64)
        requires
            old(self).well_formed(),
        ensures
            final(self).well_formed(),
            final(self)@ == (Reading {
                positions: Map::empty(),
                paused: Set::empty(),
                reset,
                ..old(self)@
            }).next_generation(),
    {
        self.positions.clear();
        self.paused.clear();
        assert(self@.paused =~= Set::empty());
        self.reset = reset;
        self.generation = self.generation.wrapping_add(1);
    }

    /// Gives every partition up.
    pub fn unsubscribe(&mut self)
        requires
            old(self).well_formed(),
        ensures
            final(self).well_formed(),
            final(self)@ == (Reading {
                positions: Map::empty(),
                ..old(self)@
            }).next_generation(),
    {
        self.positions.clear();
        self.generation = self.generation.wrapping_add(1);
    }

    /// Commits positions on a timer: **at least once**. What is committed is where the
    /// previous poll's records ended, so records that were handed out since come again
    /// after a crash.
    pub fn set_auto_commit(&mut self, interval: Option<u64>)
        requires
            old(self).well_formed(),
        ensures
            final(self).well_formed(),
            final(self)@ == (Reading {
                auto_commit: interval,
                last_auto_commit: None,
                ..old(self)@
            }),
    {
        self.auto_commit = interval;
        self.last_auto_commit = None;
    }

    /// Whether an automatic commit is due at `now`.
    pub fn auto_commit_due(&self, now: u64) -> (yes: bool)
        requires
            self.well_formed(),
        ensures
            yes == (match self@.auto_commit {
                None => false,
                Some(interval) => match self@.last_auto_commit {
                    None => true,
                    Some(last) => now - last >= interval || interval == 0,
                },
            } && self@.positions != Map::<(Seq<char>, i32), i64>::empty()),
    {
        let due = match self.auto_commit {
            None => false,
            Some(interval) => match self.last_auto_commit {
                None => true,
                Some(last) => now.saturating_sub(last) >= interval,
            },
        };
        due && !self.positions.is_empty()
    }

    /// Records an automatic commit, or one that was refused because the group
    /// rebalances.
    pub fn on_auto_commit(&mut self, now: u64)
        requires
            old(self).well_formed(),
        ensures
            final(self).well_formed(),
            final(self)@ == (Reading { last_auto_commit: Some(now), ..old(self)@ }),
    {
        self.last_auto_commit = Some(now);
    }

    /// Whether these are the partitions that this consumer holds already.
    pub fn holds(&self, partitions: &Vec<TopicPartition>) -> (yes: bool)
        requires
            self.well_formed(),
        ensures
            yes == (group::slots_of(partitions@).to_set() == self@.positions.dom()),
    {
        let ghost all = group::slots_of(partitions@);
        let mut i: usize = 0;
        while i < partitions.len()
            invariant
                i <= partitions@.len(),
                all == group::slots_of(partitions@),
                forall|k: int| 0 <= k < i ==> self@.positions.dom().contains(#[trigger] all[k]),
            decreases partitions@.len() - i,
        {
            assert(all[i as int] == partitions@[i as int]@);
            if !self.positions.contains(partitions[i].topic.as_str(), partitions[i].partition) {
                assert(all.contains(all[i as int]));
                assert(all.to_set().contains(all[i as int]));
                return false;
            }
            i = i + 1;
        }
        let keys = self.positions.keys();
        let ghost held = group::slots_of(keys@);
        let mut j: usize = 0;
        while j < keys.len()
            invariant
                j <= keys@.len(),
                held == group::slots_of(keys@),
                slots::key_list(held, self@.positions.dom()),
                all == group::slots_of(partitions@),
                forall|k: int| 0 <= k < j ==> all.contains(#[trigger] held[k]),
            decreases keys@.len() - j,
        {
            assert(held[j as int] == keys@[j as int]@);
            if !contains(partitions, &keys[j]) {
                assert(held.contains(held[j as int]));
                assert(!all.to_set().contains(held[j as int]));
                return false;
            }
            j = j + 1;
        }
        proof {
            assert(all.to_set() =~= self@.positions.dom()) by {
                assert forall|slot: (Seq<char>, i32)| all.to_set().contains(slot)
                    == self@.positions.dom().contains(slot) by {
                    if all.contains(slot) {
                        let k = choose|k: int| 0 <= k < all.len() && all[k] == slot;
                        assert(self@.positions.dom().contains(all[k]));
                    }
                    if self@.positions.dom().contains(slot) {
                        assert(held.contains(slot));
                        let k = choose|k: int| 0 <= k < held.len() && held[k] == slot;
                        assert(all.contains(held[k]));
                    }
                }
            }
        }
        true
    }

    /// Takes the partitions that the group assigned, and where it committed.
    pub fn take_assignment(&mut self, partitions: &Vec<TopicPartition>, committed: &SlotMap<i64>)
        requires
            old(self).well_formed(),
            committed.well_formed(),
        ensures
            final(self).well_formed(),
            final(self)@ == (Reading {
                positions: old(self)@.assigned(group::slots_of(partitions@), committed@),
                ..old(self)@
            }),
    {
        let ghost before = self@;
        let ghost all = group::slots_of(partitions@);
        self.positions.clear();
        proof {
            assert(before.assigned(all.take(0), committed@) =~= Map::empty());
        }
        let mut i: usize = 0;
        while i < partitions.len()
            invariant
                self.well_formed(),
                committed.well_formed(),
                i <= partitions@.len(),
                all == group::slots_of(partitions@),
                self@ == (Reading {
                    positions: before.assigned(all.take(i as int), committed@),
                    ..before
                }),
            decreases partitions@.len() - i,
        {
            let topic = partitions[i].topic.as_str();
            let partition: i32 = partitions[i].partition;
            let ghost slot = all[i as int];
            assert(slot == partitions@[i as int]@);
            let start: i64 = match committed.get(topic, partition) {
                Some(offset) => *offset,
                None => self.reset,
            };
            self.positions.insert(topic, partition, start);
            proof {
                assert(all.take(i + 1) =~= all.take(i as int).push(slot));
                lemma_push_contains(all.take(i as int), slot);
                assert(self@.positions =~= before.assigned(all.take(i + 1), committed@));
            }
            i = i + 1;
        }
        assert(all.take(all.len() as int) =~= all);
    }

    /// Lets go of partitions that the group took away. The eager protocol takes
    /// everything, the cooperative one only what moves.
    pub fn on_revoked(&mut self, lost: &Vec<TopicPartition>)
        requires
            old(self).well_formed(),
        ensures
            final(self).well_formed(),
            final(self)@ == old(self)@.without(group::slots_of(lost@)),
    {
        let ghost before = self@;
        let ghost all = group::slots_of(lost@);
        proof {
            assert(before.positions.remove_keys(all.take(0).to_set()) =~= before.positions);
            assert(before.paused.difference(all.take(0).to_set()) =~= before.paused);
        }
        let mut i: usize = 0;
        while i < lost.len()
            invariant
                self.well_formed(),
                i <= lost@.len(),
                all == group::slots_of(lost@),
                self@ == before.without(all.take(i as int)),
            decreases lost@.len() - i,
        {
            let topic = lost[i].topic.as_str();
            let partition: i32 = lost[i].partition;
            let ghost slot = all[i as int];
            let ghost so_far = self@;
            assert(slot == lost@[i as int]@);
            self.positions.remove(topic, partition);
            self.paused.remove(topic, partition);
            proof {
                let less = all.take(i as int);
                let more = all.take(i + 1);
                assert(more =~= less.push(slot));
                lemma_push_contains(less, slot);
                assert(self@.positions =~= before.positions.remove_keys(more.to_set()));
                assert(self@.paused =~= before.paused.difference(more.to_set()));
            }
            i = i + 1;
        }
        assert(all.take(all.len() as int) =~= all);
    }

    /// Takes the end of driving the group: where the assignment changed, the next fetch
    /// is a full one, and these offsets must be looked up first.
    pub fn on_settled(&mut self, changed: bool) -> (lookups: Vec<(TopicPartition, i64)>)
        requires
            old(self).well_formed(),
        ensures
            final(self).well_formed(),
            ({
                let keys = slots::keys_of(old(self)@.positions.dom());
                if changed {
                    &&& final(self)@ == old(self)@.fetch_set_changed()
                    &&& numbered(lookups@) == unresolved(
                        old(self)@.positions,
                        keys,
                        keys.len(),
                    )
                } else {
                    final(self)@ == old(self)@ && lookups@.len() == 0
                }
            }),
    {
        let mut lookups: Vec<(TopicPartition, i64)> = Vec::new();
        if !changed {
            return lookups;
        }
        self.on_fetch_set_changed();
        let entries = self.positions.entries();
        let ghost keys = slots::entry_keys(entries@);
        proof {
            slots::lemma_entry_keys(entries@);
            assert(numbered(lookups@) =~= Seq::empty());
        }
        let mut i: usize = 0;
        while i < entries.len()
            invariant
                i <= entries@.len(),
                self.positions@ == slots::as_map(entries@),
                slots::distinct_keys(entries@),
                keys == slots::entry_keys(entries@),
                numbered(lookups@) == unresolved(self.positions@, keys, i as nat),
            decreases entries@.len() - i,
        {
            let offset: i64 = entries[i].1;
            let ghost earlier = lookups@;
            proof {
                slots::lemma_at(entries@, i as int);
            }
            if offset == EARLIEST || offset == LATEST {
                lookups.push((entries[i].0.clone(), offset));
                assert(numbered(lookups@) =~= numbered(earlier).push((keys[i as int], offset)));
            }
            i = i + 1;
        }
        lookups
    }
}

/// Whether a failed automatic commit is to be passed over: refused because the group
/// rebalances, and the offsets go with the partitions.
pub fn tolerates(error: &Error) -> (yes: bool)
    ensures
        yes == (error@ matches Fault::Broker(op, _, _) && op == "OffsetCommit"@),
{
    match error {
        Error::Broker { op, .. } => names::same(op, "OffsetCommit"),
        _ => false,
    }
}

/// A partition that did not move since the broker accepted the last fetch is not named
/// again: an incremental fetch is the size of what changed.
pub proof fn law_an_unmoved_partition_is_not_named(
    reading: Reading,
    addr: Seq<char>,
    session_id: i32,
    slots: Seq<(Seq<char>, i32)>,
    slot: (Seq<char>, i32),
)
    requires
        reading.incremental,
        session_id != 0,
        slots.contains(slot),
        reading.positions.dom().contains(slot),
    ensures
        !reading.agreeing(addr, session_id, slots).names(addr, slot),
{
    let known = reading.agreed(addr).known;
    assert(slots.take(slots.len() as int) =~= slots);
    lemma_known(known, reading.positions, slots, slot, slots.len());
}

proof fn lemma_known(
    known: Map<(Seq<char>, i32), i64>,
    positions: Map<(Seq<char>, i32), i64>,
    slots: Seq<(Seq<char>, i32)>,
    slot: (Seq<char>, i32),
    n: nat,
)
    requires
        n <= slots.len(),
        positions.dom().contains(slot),
        slots.take(n as int).contains(slot),
    ensures
        looked_up(known_after(known, positions, slots, n), slot) == Some(positions[slot]),
    decreases n,
{
    if n > 0 {
        let less = slots.take(n - 1);
        assert(slots.take(n as int) =~= less.push(slots[n - 1]));
        lemma_push_contains(less, slots[n - 1]);
        if slots[n - 1] != slot {
            lemma_known(known, positions, slots, slot, (n - 1) as nat);
        }
    }
}

/// A full fetch names everything it is asked for.
pub proof fn law_a_full_fetch_names_everything(
    reading: Reading,
    addr: Seq<char>,
    slot: (Seq<char>, i32),
)
    requires
        !reading.incremental || reading.agreed(addr).id == 0,
    ensures
        reading.names(addr, slot),
{
}

/// Pausing partitions and resuming them leaves every position as it was.
pub proof fn law_a_pause_keeps_positions(reading: Reading, slots: Set<(Seq<char>, i32)>)
    requires
        reading.paused.disjoint(slots),
    ensures
        ({
            let paused = Reading { paused: reading.paused.union(slots), ..reading };
            let resumed = Reading { paused: paused.paused.difference(slots), ..paused };
            resumed.positions == reading.positions && resumed.fetchable() == reading.fetchable()
        }),
{
    assert(reading.paused.union(slots).difference(slots) =~= reading.paused);
}

/// A fetch in flight is void once anything changed that it did not know: it asked a question
/// that is no longer the one being asked.
pub proof fn law_a_changed_question_voids_the_fetch_in_flight(reading: Reading, asked: Asked)
    requires
        reading.outstanding == Some(asked),
        asked.generation == reading.generation,
    ensures
        reading.next_generation().outstanding == Some(asked),
        reading.next_generation().generation != asked.generation,
        reading.fetch_set_changed().outstanding == Some(asked),
        reading.fetch_set_changed().generation != asked.generation,
{
}

/// A partition that was lost is neither held nor paused any more, and the others stay as
/// they were: a pause does not outlive the loss.
pub proof fn law_a_pause_ends_with_the_loss(
    reading: Reading,
    lost: Seq<(Seq<char>, i32)>,
    slot: (Seq<char>, i32),
)
    ensures
        ({
            let after = reading.without(lost);
            if lost.contains(slot) {
                !after.positions.dom().contains(slot) && !after.paused.contains(slot)
            } else {
                &&& after.positions.dom().contains(slot) == reading.positions.dom().contains(slot)
                &&& reading.positions.dom().contains(slot) ==> after.positions[slot]
                    == reading.positions[slot]
                &&& after.paused.contains(slot) == reading.paused.contains(slot)
            }
        }),
{
    assert(lost.to_set().contains(slot) == lost.contains(slot));
}

/// A fetch that brought nothing that the caller may have still moves on: past the last
/// record below the last stable offset.
pub proof fn law_a_fetch_of_aborted_records_makes_progress(
    reading: Reading,
    part: Arrived,
    batches: Seq<records::Batch>,
)
    requires
        reading.positions.dom().contains(part.slot),
        ({
            let all = records::nonempty(batches);
            consumer::stable_len(
                records::batch_steps(all),
                reading.isolation,
                part.last_stable_offset,
                0,
            ) > 0
        }),
    ensures
        ({
            let all = records::nonempty(batches);
            let n = consumer::stable_len(
                records::batch_steps(all),
                reading.isolation,
                part.last_stable_offset,
                0,
            );
            reading.with_batches(part, batches).0.positions[part.slot] == records::stable_records(
                all[n - 1].records,
                part.last_stable_offset,
                reading.isolation,
            ).last().offset.wrapping_add(1)
        }),
{
}

proof fn lemma_push_contains(list: Seq<(Seq<char>, i32)>, slot: (Seq<char>, i32))
    ensures
        forall|other: (Seq<char>, i32)| #[trigger]
            list.push(slot).contains(other) <==> list.contains(other) || other == slot,
{
    assert forall|other: (Seq<char>, i32)| #[trigger] list.push(slot).contains(other)
        <==> list.contains(other) || other == slot by {
        if list.contains(other) {
            let i = choose|i: int| 0 <= i < list.len() && list[i] == other;
            assert(list.push(slot)[i] == other);
        }
        if other == slot {
            assert(list.push(slot)[list.len() as int] == other);
        }
    }
}

/// Whether the brokers' answers, taken one after the other, lead from state to state, and
/// each yields its part.
pub open spec fn answers_lead(
    replies: Seq<Heard>,
    states: Seq<Reading>,
    parts: Seq<Seq<Yield>>,
    n: nat,
) -> bool {
    &&& n <= replies.len()
    &&& states.len() == n + 1
    &&& parts.len() == n
    &&& forall|r: int|
        #![trigger replies[r]]
        0 <= r < n ==> replies[r].answer is Some && states[r].answered(
            replies[r].addr,
            replies[r].slots,
            replies[r].answer.unwrap().code,
            replies[r].answer.unwrap().disposition,
            replies[r].answer.unwrap().session_id,
            replies[r].answer.unwrap().parts,
        ) == (states[r + 1], Ok::<Seq<Yield>, Fault>(parts[r]))
}

/// A poll hands out what every broker's answer yields, all of it, broker by broker: taken
/// one after the other, each answer's yields stand in one piece in what the caller gets,
/// behind those of the brokers before it, and the consumer is where the last answer left
/// it.
pub proof fn law_a_poll_hands_out_every_answer(
    reading: Reading,
    replies: Seq<Heard>,
    states: Seq<Reading>,
    parts: Seq<Seq<Yield>>,
)
    requires
        answers_lead(replies, states, parts, replies.len()),
        states[0] == reading,
    ensures
        reading.polled(replies) == (
            states.last(),
            Ok::<Seq<Yield>, Trouble>(parts.flatten()),
        ),
        forall|r: int|
            #![trigger parts[r]]
            0 <= r < parts.len() ==> {
                let at = parts.take(r).flatten().len() as int;
                parts.flatten().subrange(at, at + parts[r].len()) == parts[r]
            },
{
    lemma_heard(reading, replies, states, parts, replies.len());
    assert(parts.take(replies.len() as int) =~= parts);
    assert forall|r: int| #![trigger parts[r]] 0 <= r < parts.len() implies {
        let at = parts.take(r).flatten().len() as int;
        parts.flatten().subrange(at, at + parts[r].len()) == parts[r]
    } by {
        lemma_flattened(parts, r);
    }
}

proof fn lemma_flattened(parts: Seq<Seq<Yield>>, r: int)
    requires
        0 <= r < parts.len(),
    ensures
        ({
            let at = parts.take(r).flatten().len() as int;
            parts.flatten().subrange(at, at + parts[r].len()) == parts[r]
        }),
{
    let before = parts.take(r);
    let behind = parts.skip(r + 1);
    let at = before.flatten().len() as int;
    before.lemma_flatten_push(parts[r]);
    assert(before.push(parts[r]) + behind =~= parts);
    vstd::seq_lib::lemma_flatten_concat(before.push(parts[r]), behind);
    assert(parts.flatten() == before.flatten() + parts[r] + behind.flatten());
    assert(parts.flatten().subrange(at, at + parts[r].len()) =~= parts[r]);
}

proof fn lemma_heard(
    reading: Reading,
    replies: Seq<Heard>,
    states: Seq<Reading>,
    parts: Seq<Seq<Yield>>,
    n: nat,
)
    requires
        n <= parts.len(),
        answers_lead(replies, states, parts, parts.len()),
        states[0] == reading,
    ensures
        reading.heard(replies, n) == Ok::<(Reading, Seq<Yield>), Trouble>(
            (states[n as int], parts.take(n as int).flatten()),
        ),
    decreases n,
{
    if n == 0 {
        assert(parts.take(0).flatten() =~= Seq::empty());
    } else {
        lemma_heard(reading, replies, states, parts, (n - 1) as nat);
        let earlier = parts.take(n - 1);
        earlier.lemma_flatten_push(parts[n - 1]);
        assert(earlier.push(parts[n - 1]) =~= parts.take(n as int));
        assert(replies[n - 1].answer is Some);
    }
}

/// A poll ends with the first broker that is trouble, and says what the trouble is; the
/// caller gets nothing, and of the consumer nothing but its sessions changes: they start
/// over.
pub proof fn law_the_first_trouble_ends_a_poll(
    reading: Reading,
    replies: Seq<Heard>,
    states: Seq<Reading>,
    parts: Seq<Seq<Yield>>,
)
    requires
        parts.len() < replies.len(),
        answers_lead(replies, states, parts, parts.len()),
        states[0] == reading,
    ensures
        ({
            let r = parts.len() as int;
            let cleared = Reading { sessions: Map::empty(), ..reading };
            match replies[r].answer {
                None => reading.polled(replies) == (
                    cleared,
                    Err::<Seq<Yield>, Trouble>(Trouble::Unread(parts.len())),
                ),
                Some(answer) => match states[r].answered(
                    replies[r].addr,
                    replies[r].slots,
                    answer.code,
                    answer.disposition,
                    answer.session_id,
                    answer.parts,
                ).1 {
                    Err(fault) => reading.polled(replies) == (
                        cleared,
                        Err::<Seq<Yield>, Trouble>(Trouble::Failed(fault)),
                    ),
                    Ok(_) => true,
                },
            }
        }),
{
    let n = parts.len();
    lemma_heard(reading, replies, states, parts, n);
    if reading.heard(replies, n + 1) is Err {
        lemma_trouble_stays(reading, replies, n + 1, replies.len());
    }
}

/// Whether the partitions' answers, taken one after the other, lead from state to state,
/// and each yields its part.
pub open spec fn parts_lead(
    parts: Seq<Arrived>,
    states: Seq<Reading>,
    yields: Seq<Option<Yield>>,
) -> bool {
    &&& states.len() == parts.len() + 1
    &&& yields.len() == parts.len()
    &&& forall|i: int|
        #![trigger parts[i]]
        0 <= i < parts.len() ==> states[i].taken(parts[i]) == Ok::<
            (Reading, Option<Yield>),
            Fault,
        >((states[i + 1], yields[i]))
}

/// A broker's answer yields what each of its partitions yields, in their order, and
/// nothing is left out.
pub proof fn law_an_answer_yields_every_partition(
    reading: Reading,
    parts: Seq<Arrived>,
    states: Seq<Reading>,
    yields: Seq<Option<Yield>>,
)
    requires
        parts_lead(parts, states, yields),
        states[0] == reading,
    ensures
        reading.taken_all(parts, parts.len()) == (
            states.last(),
            Ok::<Seq<Yield>, Fault>(
                yields.filter(|y: Option<Yield>| y is Some).map_values(
                    |y: Option<Yield>| y.unwrap(),
                ),
            ),
        ),
{
    lemma_taken_all(reading, parts, states, yields, parts.len());
    assert(yields.take(parts.len() as int) =~= yields);
}

proof fn lemma_taken_all(
    reading: Reading,
    parts: Seq<Arrived>,
    states: Seq<Reading>,
    yields: Seq<Option<Yield>>,
    n: nat,
)
    requires
        n <= parts.len(),
        parts_lead(parts, states, yields),
        states[0] == reading,
    ensures
        reading.taken_all(parts, n) == (
            states[n as int],
            Ok::<Seq<Yield>, Fault>(
                yields.take(n as int).filter(|y: Option<Yield>| y is Some).map_values(
                    |y: Option<Yield>| y.unwrap(),
                ),
            ),
        ),
    decreases n,
{
    reveal(Seq::filter);
    let some = |y: Option<Yield>| y is Some;
    let inner = |y: Option<Yield>| y.unwrap();
    let now = yields.take(n as int);
    if n == 0 {
        assert(now.filter(some).map_values(inner) =~= Seq::empty());
    } else {
        lemma_taken_all(reading, parts, states, yields, (n - 1) as nat);
        let earlier = yields.take(n - 1);
        assert(now.drop_last() =~= earlier);
        assert(now.last() == yields[n - 1]);
        assert(reading.taken_all(parts, (n - 1) as nat).0.taken(parts[n - 1]) is Ok);
        if yields[n - 1] is Some {
            assert(now.filter(some) == earlier.filter(some).push(yields[n - 1]));
            assert(now.filter(some).map_values(inner) =~= earlier.filter(some).map_values(
                inner,
            ).push(yields[n - 1].unwrap()));
        }
    }
}

/// What one partition's answer can change: the partition's own position, and nothing
/// else. An error is a failure that names its code; a partition that is not held, or that
/// brought no bytes, yields nothing and stays where it is.
pub proof fn law_an_answer_moves_its_own_partition_alone(reading: Reading, part: Arrived)
    ensures
        part.code != 0 ==> reading.taken(part) == Err::<(Reading, Option<Yield>), Fault>(
            Fault::Broker("Fetch partition"@, part.code, part.disposition),
        ),
        part.code == 0 && (!reading.positions.dom().contains(part.slot) || part.records is None
            || part.records.unwrap().len() == 0) ==> reading.taken(part) == Ok::<
            (Reading, Option<Yield>),
            Fault,
        >((reading, None)),
        reading.taken(part) matches Ok((after, got)) ==> {
            &&& after == (Reading { positions: after.positions, ..reading })
            &&& after.positions.dom() == reading.positions.dom()
            &&& forall|slot: (Seq<char>, i32)|
                slot != part.slot && #[trigger] reading.positions.dom().contains(slot)
                    ==> after.positions[slot] == reading.positions[slot]
            &&& got matches Some(y) ==> y.slot == part.slot && (y.batches.len() > 0
                || y.fallback.len() > 0)
        },
{
    if let Ok((after, got)) = reading.taken(part) {
        assert(after.positions.dom() =~= reading.positions.dom());
    }
}

/// Whether batches stand in the order of their offsets, and each begins with its least.
pub open spec fn in_offset_order(batches: Seq<records::Batch>) -> bool {
    &&& forall|a: int, b: int|
        0 <= a <= b < batches.len() ==> (#[trigger] batches[a]).records[0].offset <= (
        #[trigger] batches[b]).records[0].offset
    &&& forall|a: int, i: int|
        0 <= a < batches.len() && 0 <= i < batches[a].records.len()
            ==> batches[a].records[0].offset <= (#[trigger] batches[a].records[i]).offset
}

/// A position that moved past a record that the caller may have has handed that record
/// out: what lies between where a fetch began and where the next one begins, is no marker
/// and is not part of an aborted transaction, is in what the partition yields.
pub proof fn law_what_a_fetch_passes_is_handed_out(
    reading: Reading,
    part: Arrived,
    batches: Seq<records::Batch>,
    k: int,
    r: records::LeanRecord,
)
    requires
        reading.positions.dom().contains(part.slot),
        in_offset_order(records::nonempty(batches)),
        0 <= k < records::nonempty(batches).len(),
        records::nonempty(batches)[k].records.contains(r),
        !records::nonempty(batches)[k].control,
        reading.isolation == IsolationLevel::ReadCommitted && records::nonempty(
            batches,
        )[k].transactional ==> !consumer::aborted_at(
            records::batch_steps(records::nonempty(batches)),
            part.aborted,
            records::nonempty(batches)[k].producer_id,
            k,
        ),
        reading.positions[part.slot] <= r.offset < reading.with_batches(
            part,
            batches,
        ).0.positions[part.slot],
    ensures
        ({
            let got = reading.with_batches(part, batches).1;
            &&& got matches Some(y)
            &&& y.slot == part.slot
            &&& exists|j: int|
                0 <= j < y.batches.len() && (#[trigger] y.batches[j]).body == records::nonempty(
                    batches,
                )[k].body && y.batches[j].records.contains(r)
        }),
{
    let all = records::nonempty(batches);
    let from = reading.positions[part.slot];
    let steps = records::batch_steps(all);
    let n = consumer::stable_len(steps, reading.isolation, part.last_stable_offset, 0);
    let holding = |b: records::Batch| b.records.len() > 0;
    assert forall|i: int| 0 <= i < all.len() implies (#[trigger] all[i]).records.len() > 0 by {
        batches.lemma_filter_pred(holding, i);
    }
    consumer::law_nothing_past_the_last_stable_offset(
        steps,
        reading.isolation,
        part.last_stable_offset,
    );
    let i = choose|i: int| 0 <= i < all[k].records.len() && all[k].records[i] == r;
    if reading.isolation == IsolationLevel::ReadCommitted {
        records::law_nothing_unstable_is_passed_over(all, part.last_stable_offset, from);
        assert(r.offset < part.last_stable_offset);
        if k >= n {
            assert(steps[n as int].offset == all[n as int].records[0].offset);
            assert(all[n as int].records[0].offset <= all[k].records[0].offset);
            assert(all[k].records[0].offset <= all[k].records[i].offset);
        }
    }
    assert(k < n);
    records::law_exactly_the_visible_records_are_left(
        all,
        part.aborted,
        part.last_stable_offset,
        reading.isolation,
        from,
        n,
        r,
        all[k].body,
    );
    assert(all[k].body == all[k].body && records::reaches_the_caller(
        all,
        part.aborted,
        part.last_stable_offset,
        reading.isolation,
        from,
        k,
        r,
    ));
    let left = records::left_of(
        all,
        part.aborted,
        part.last_stable_offset,
        reading.isolation,
        from,
        n,
    );
    let j = choose|j: int|
        0 <= j < left.len() && (#[trigger] left[j]).body == all[k].body
            && left[j].records.contains(r);
    let y = reading.with_batches(part, batches).1.unwrap();
    assert(y.batches == left);
    assert(y.batches[j].records.contains(r));
}

/// The same of records that were read the general way.
pub proof fn law_what_a_general_fetch_passes_is_handed_out(
    reading: Reading,
    part: Arrived,
    list: Seq<consumer::FullRecord>,
    k: int,
)
    requires
        reading.positions.dom().contains(part.slot),
        forall|a: int, b: int|
            0 <= a <= b < list.len() ==> (#[trigger] list[a]).offset <= (#[trigger] list[b]).offset,
        0 <= k < list.len(),
        !list[k].control,
        reading.isolation == IsolationLevel::ReadCommitted && list[k].transactional
            ==> !consumer::aborted_at(
            consumer::record_steps(list),
            part.aborted,
            list[k].producer_id,
            k,
        ),
        reading.positions[part.slot] <= list[k].offset < reading.with_records(
            part,
            list,
        ).0.positions[part.slot],
    ensures
        ({
            let got = reading.with_records(part, list).1;
            &&& got matches Some(y)
            &&& y.slot == part.slot
            &&& y.fallback.contains(list[k])
        }),
{
    let from = reading.positions[part.slot];
    let steps = consumer::record_steps(list);
    let n = consumer::stable_len(steps, reading.isolation, part.last_stable_offset, 0);
    consumer::law_nothing_past_the_last_stable_offset(
        steps,
        reading.isolation,
        part.last_stable_offset,
    );
    if k >= n {
        if n > 0 {
            assert(list[n - 1].offset <= list[k].offset);
            assert(steps[n - 1].offset == list[n - 1].offset);
            assert(steps[n as int].offset == list[n as int].offset);
            assert(list[n as int].offset <= list[k].offset);
        }
        assert(false);
    }
    consumer::law_exactly_the_visible_records(
        list,
        part.aborted,
        reading.isolation,
        from,
        n,
        list[k],
    );
    assert(consumer::visible(list, part.aborted, reading.isolation, from, k));
}

/// What a broker is taken to know once it accepted a fetch: the session that it named, one
/// epoch on and never below 1, and of each partition that it was asked for where the
/// consumer stood. What is agreed with other brokers stays, and without sessions nothing
/// is agreed at all.
pub proof fn law_an_accepted_fetch_is_remembered(
    reading: Reading,
    addr: Seq<char>,
    session_id: i32,
    slots: Seq<(Seq<char>, i32)>,
)
    ensures
        ({
            let after = reading.agreeing(addr, session_id, slots);
            let before = reading.agreed(addr);
            &&& !reading.incremental ==> after == reading
            &&& reading.incremental ==> {
                let now = after.sessions[addr];
                &&& after.sessions.dom() == reading.sessions.dom().insert(addr)
                &&& now.id == session_id
                &&& 0 <= before.epoch < i32::MAX ==> now.epoch == before.epoch + 1
                &&& before.epoch < 0 || before.epoch == i32::MAX ==> now.epoch == 1
                &&& forall|slot: (Seq<char>, i32)| #[trigger]
                    now.known.dom().contains(slot) <==> before.known.dom().contains(slot) || (
                    slots.contains(slot) && reading.positions.dom().contains(slot))
                &&& forall|slot: (Seq<char>, i32)| #[trigger]
                    now.known.dom().contains(slot) ==> now.known[slot] == if slots.contains(slot)
                        && reading.positions.dom().contains(slot) {
                        reading.positions[slot]
                    } else {
                        before.known[slot]
                    }
                &&& forall|other: Seq<char>|
                    other != addr && #[trigger] reading.sessions.dom().contains(other)
                        ==> after.sessions[other] == reading.sessions[other]
                &&& after == (Reading { sessions: after.sessions, ..reading })
            }
        }),
{
    let before = reading.agreed(addr);
    lemma_told(before.known, reading.positions, slots, slots.len());
    assert(slots.take(slots.len() as int) =~= slots);
    let after = reading.agreeing(addr, session_id, slots);
    if reading.incremental {
        assert(after.sessions.dom() =~= reading.sessions.dom().insert(addr));
    }
}

proof fn lemma_told(
    known: Map<(Seq<char>, i32), i64>,
    positions: Map<(Seq<char>, i32), i64>,
    slots: Seq<(Seq<char>, i32)>,
    n: nat,
)
    requires
        n <= slots.len(),
    ensures
        ({
            let now = known_after(known, positions, slots, n);
            let told = slots.take(n as int);
            forall|slot: (Seq<char>, i32)|
                #![trigger now.dom().contains(slot)]
                #![trigger now[slot]]
                {
                    let named = told.contains(slot) && positions.dom().contains(slot);
                    &&& now.dom().contains(slot) <==> known.dom().contains(slot) || named
                    &&& named ==> now[slot] == positions[slot]
                    &&& !named && known.dom().contains(slot) ==> now[slot] == known[slot]
                }
        }),
    decreases n,
{
    if n > 0 {
        lemma_told(known, positions, slots, (n - 1) as nat);
        let now = known_after(known, positions, slots, n);
        let before = known_after(known, positions, slots, (n - 1) as nat);
        let told = slots.take(n as int);
        let earlier = slots.take(n - 1);
        assert forall|slot: (Seq<char>, i32)|
            #![trigger now.dom().contains(slot)]
            #![trigger now[slot]]
            {
                let named = told.contains(slot) && positions.dom().contains(slot);
                &&& now.dom().contains(slot) <==> known.dom().contains(slot) || named
                &&& named ==> now[slot] == positions[slot]
                &&& !named && known.dom().contains(slot) ==> now[slot] == known[slot]
            } by {
            assert(before.dom().contains(slot) || !before.dom().contains(slot));
            assert(told[n - 1] == slots[n - 1]);
            if earlier.contains(slot) {
                let i = choose|i: int| 0 <= i < earlier.len() && earlier[i] == slot;
                assert(told[i] == slot);
            }
            if told.contains(slot) && slot != slots[n - 1] {
                let i = choose|i: int| 0 <= i < told.len() && told[i] == slot;
                assert(earlier[i] == slot);
            }
        }
    }
}

/// A broker that forgot the session, or holds it at another epoch, is no failure: nothing
/// moves, nothing is yielded, and the next fetch to it is a full one. Any other error
/// fails the fetch and changes nothing.
pub proof fn law_a_forgotten_session_is_opened_again(
    reading: Reading,
    addr: Seq<char>,
    slots: Seq<(Seq<char>, i32)>,
    code: i16,
    disposition: Disposition,
    session_id: i32,
    parts: Seq<Arrived>,
)
    ensures
        ({
            let (after, result) = reading.answered(
                addr,
                slots,
                code,
                disposition,
                session_id,
                parts,
            );
            &&& code == 70 || code == 71 ==> {
                &&& result == Ok::<Seq<Yield>, Fault>(Seq::empty())
                &&& after.positions == reading.positions
                &&& after.agreed(addr).id == 0
                &&& after.agreed(addr).epoch == 0
                &&& forall|slot: (Seq<char>, i32)| after.names(addr, slot)
            }
            &&& code != 0 && code != 70 && code != 71 ==> result == Err::<Seq<Yield>, Fault>(
                Fault::Broker("Fetch"@, code, disposition),
            ) && after == reading
        }),
{
}

/// Exactly the partitions that are held and not paused are fetched, in their order.
pub proof fn law_exactly_the_unpaused_partitions_are_fetched(
    keys: Seq<(Seq<char>, i32)>,
    paused: Set<(Seq<char>, i32)>,
    n: nat,
)
    requires
        n <= keys.len(),
    ensures
        unpaused(keys, paused, n) == keys.take(n as int).filter(
            |slot: (Seq<char>, i32)| !paused.contains(slot),
        ),
    decreases n,
{
    reveal(Seq::filter);
    let runs = |slot: (Seq<char>, i32)| !paused.contains(slot);
    if n > 0 {
        law_exactly_the_unpaused_partitions_are_fetched(keys, paused, (n - 1) as nat);
        assert(keys.take(n as int).drop_last() =~= keys.take(n - 1));
        assert(keys.take(n as int).last() == keys[n - 1]);
    } else {
        assert(unpaused(keys, paused, n) =~= keys.take(n as int).filter(runs));
    }
}

/// What a fetch asks for: of each partition that it is to name, in their order, the offset
/// that the consumer stands at, under the partition's own topic and number. Left out are
/// those alone of which the broker, in a session that goes on, knows the position already.
pub proof fn law_a_fetch_asks_from_each_position(
    reading: Reading,
    addr: Seq<char>,
    slots: Seq<(Seq<char>, i32)>,
    n: nat,
)
    requires
        n <= slots.len(),
        forall|i: int|
            0 <= i < slots.len() ==> reading.positions.dom().contains(#[trigger] slots[i]),
    ensures
        ({
            let session = reading.agreed(addr);
            fetch_entries(reading, addr, slots, n) == slots.take(n as int).filter(
                |slot: (Seq<char>, i32)|
                    !(reading.incremental && session.id != 0 && session.known.dom().contains(slot)
                        && session.known[slot] == reading.positions[slot]),
            ).map_values(
                |slot: (Seq<char>, i32)|
                    (
                        slot.0,
                        FetchEntry {
                            partition: slot.1,
                            fetch_offset: reading.positions[slot],
                            max_bytes: reading.max_bytes,
                            current_leader_epoch: -1i32,
                            log_start_offset: -1i64,
                        },
                    ),
            )
        }),
    decreases n,
{
    reveal(Seq::filter);
    let session = reading.agreed(addr);
    let named = |slot: (Seq<char>, i32)|
        !(reading.incremental && session.id != 0 && session.known.dom().contains(slot)
            && session.known[slot] == reading.positions[slot]);
    let entry = |slot: (Seq<char>, i32)|
        (
            slot.0,
            FetchEntry {
                partition: slot.1,
                fetch_offset: reading.positions[slot],
                max_bytes: reading.max_bytes,
                current_leader_epoch: -1i32,
                log_start_offset: -1i64,
            },
        );
    let now = slots.take(n as int);
    if n > 0 {
        law_a_fetch_asks_from_each_position(reading, addr, slots, (n - 1) as nat);
        let earlier = slots.take(n - 1);
        let last = slots[n - 1];
        assert(now.drop_last() =~= earlier);
        assert(now.last() == last);
        assert(reading.names(addr, last) == named(last));
        if named(last) {
            assert(now.filter(named) == earlier.filter(named).push(last));
            assert(now.filter(named).map_values(entry) =~= earlier.filter(named).map_values(
                entry,
            ).push(entry(last)));
        }
    }
    assert(fetch_entries(reading, addr, slots, n) =~= now.filter(named).map_values(entry));
}

/// A new consumer holds nothing, waits at most half a second, and takes ten mebibytes of a
/// partition and 64 of a response. It uses fetch sessions, keeps a fetch in flight, starts
/// at the oldest record, and commits nothing by itself.
pub proof fn law_a_new_consumer_starts_at_the_beginning(isolation: IsolationLevel)
    ensures
        ({
            let new = unassigned(isolation);
            &&& new.isolation == isolation
            &&& new.max_wait_ms == 500
            &&& new.max_bytes == 10 * 1024 * 1024
            &&& new.max_response_bytes == 64 * 1024 * 1024
            &&& new.incremental
            &&& new.prefetch
            &&& new.reset == -2
            &&& new.auto_commit is None
            &&& new.last_auto_commit is None
            &&& new.outstanding is None
            &&& forall|slot: (Seq<char>, i32)| !new.positions.dom().contains(slot)
            &&& forall|slot: (Seq<char>, i32)| !new.paused.contains(slot)
            &&& forall|addr: Seq<char>| !new.sessions.dom().contains(addr)
        }),
        EARLIEST == -2,
        LATEST == -1,
        MAX_STEPS == 20,
{
}

/// A group's assignment is taken as it is: exactly the partitions that were assigned are
/// held, each where the group committed, or where a partition starts that it never
/// committed.
pub proof fn law_an_assignment_starts_where_the_group_committed(
    reading: Reading,
    slots: Seq<(Seq<char>, i32)>,
    committed: Map<(Seq<char>, i32), i64>,
    slot: (Seq<char>, i32),
)
    ensures
        ({
            let held = reading.assigned(slots, committed);
            &&& held.dom().contains(slot) <==> slots.contains(slot)
            &&& slots.contains(slot) && committed.dom().contains(slot) ==> held[slot]
                == committed[slot]
            &&& slots.contains(slot) && !committed.dom().contains(slot) ==> held[slot]
                == reading.reset
        }),
{
}

/// Exactly the partitions that stand at the oldest record or at the end of the log are
/// looked up, each with what it stands at.
pub proof fn law_only_symbolic_positions_are_looked_up(
    positions: Map<(Seq<char>, i32), i64>,
    keys: Seq<(Seq<char>, i32)>,
    n: nat,
)
    requires
        n <= keys.len(),
    ensures
        unresolved(positions, keys, n) == keys.take(n as int).filter(
            |slot: (Seq<char>, i32)| positions[slot] == -2 || positions[slot] == -1,
        ).map_values(|slot: (Seq<char>, i32)| (slot, positions[slot])),
    decreases n,
{
    reveal(Seq::filter);
    let symbolic = |slot: (Seq<char>, i32)| positions[slot] == -2 || positions[slot] == -1;
    let entry = |slot: (Seq<char>, i32)| (slot, positions[slot]);
    let now = keys.take(n as int);
    if n > 0 {
        law_only_symbolic_positions_are_looked_up(positions, keys, (n - 1) as nat);
        let earlier = keys.take(n - 1);
        assert(now.drop_last() =~= earlier);
        assert(now.last() == keys[n - 1]);
        if symbolic(keys[n - 1]) {
            assert(now.filter(symbolic) == earlier.filter(symbolic).push(keys[n - 1]));
            assert(now.filter(symbolic).map_values(entry) =~= earlier.filter(symbolic).map_values(
                entry,
            ).push(entry(keys[n - 1])));
        }
    }
    assert(unresolved(positions, keys, n) =~= now.filter(symbolic).map_values(entry));
}

/// How a partition's records are read: batches that the lean reader reads are taken in by
/// their batches, a buffer that it hands back record by record, and bytes that are wrong
/// fail the fetch with what is wrong with them.
pub proof fn law_records_are_read_lean_or_in_full(reading: Reading, part: Arrived)
    requires
        part.code == 0,
        reading.positions.dom().contains(part.slot),
        part.records matches Some(s) && s.len() > 0,
    ensures
        ({
            let s = part.records.unwrap();
            &&& records::batches_from(s, 0) matches Err(e) ==> reading.taken(part) == Err::<
                (Reading, Option<Yield>),
                Fault,
            >(Fault::Core(e))
            &&& records::batches_from(s, 0) matches Ok(Some(batches)) ==> ((forall|i: int|
                0 <= i < batches.len() ==> (#[trigger] batches[i]).body.len() < 0xffff_ffff)
                ==> reading.taken(part) == Ok::<(Reading, Option<Yield>), Fault>(
                reading.with_batches(part, batches),
            ))
            &&& records::batches_from(s, 0) == Ok::<Option<Seq<records::Batch>>, Flaw>(None) ==> {
                &&& general::records_from(s, 0) matches Ok(list) ==> reading.taken(part) == Ok::<
                    (Reading, Option<Yield>),
                    Fault,
                >(reading.with_records(part, list))
                &&& general::records_from(s, 0) matches Err(e) ==> reading.taken(part) == Err::<
                    (Reading, Option<Yield>),
                    Fault,
                >(Fault::Core(e))
            }
        }),
{
}

/// Nothing reaches the caller that it may not have: what a partition yields comes from the
/// batches that were read, lies at the position or past it and, for a reader of committed
/// data, below the last stable offset, and is neither a marker nor part of an aborted
/// transaction.
pub proof fn law_only_visible_records_are_handed_out(
    reading: Reading,
    part: Arrived,
    batches: Seq<records::Batch>,
    j: int,
    r: records::LeanRecord,
)
    requires
        reading.positions.dom().contains(part.slot),
        in_offset_order(records::nonempty(batches)),
        reading.with_batches(part, batches).1 matches Some(y) && 0 <= j < y.batches.len()
            && y.batches[j].records.contains(r),
    ensures
        ({
            let all = records::nonempty(batches);
            let y = reading.with_batches(part, batches).1.unwrap();
            &&& r.offset >= reading.positions[part.slot]
            &&& reading.isolation == IsolationLevel::ReadCommitted ==> r.offset
                < part.last_stable_offset
            &&& y.fallback.len() == 0
            &&& exists|k: int|
                #![trigger all[k]]
                0 <= k < all.len() && all[k].body == y.batches[j].body && all[k].records.contains(r)
                    && !all[k].control && !(reading.isolation == IsolationLevel::ReadCommitted
                    && all[k].transactional && consumer::aborted_at(
                    records::batch_steps(all),
                    part.aborted,
                    all[k].producer_id,
                    k,
                ))
        }),
{
    let all = records::nonempty(batches);
    let from = reading.positions[part.slot];
    let steps = records::batch_steps(all);
    let n = consumer::stable_len(steps, reading.isolation, part.last_stable_offset, 0);
    let y = reading.with_batches(part, batches).1.unwrap();
    consumer::law_nothing_past_the_last_stable_offset(
        steps,
        reading.isolation,
        part.last_stable_offset,
    );
    let left = records::left_of(
        all,
        part.aborted,
        part.last_stable_offset,
        reading.isolation,
        from,
        n,
    );
    assert(y.batches == left);
    assert(left[j].body == y.batches[j].body && left[j].records.contains(r));
    records::law_exactly_the_visible_records_are_left(
        all,
        part.aborted,
        part.last_stable_offset,
        reading.isolation,
        from,
        n,
        r,
        y.batches[j].body,
    );
    let k = choose|k: int|
        0 <= k < n && (#[trigger] all[k]).body == y.batches[j].body && records::reaches_the_caller(
            all,
            part.aborted,
            part.last_stable_offset,
            reading.isolation,
            from,
            k,
            r,
        );
    let i = choose|i: int| 0 <= i < all[k].records.len() && all[k].records[i] == r;
    assert(all[k].records[0].offset <= all[k].records[i].offset);
    assert(all[k].records.contains(r));
}

/// A fetch of which nothing can be handed out yet stays where it is, and yields nothing; one
/// that was read whole goes on behind its last record.
pub proof fn law_a_position_goes_on_behind_the_last_record(
    reading: Reading,
    part: Arrived,
    batches: Seq<records::Batch>,
    list: Seq<consumer::FullRecord>,
)
    requires
        reading.positions.dom().contains(part.slot),
    ensures
        ({
            let all = records::nonempty(batches);
            let (after, got) = reading.with_batches(part, batches);
            let (after_list, got_list) = reading.with_records(part, list);
            let uncommitted = reading.isolation == IsolationLevel::ReadUncommitted;
            &&& all.len() == 0 ==> after.positions[part.slot] == reading.positions[part.slot]
                && got is None
            &&& all.len() > 0 && uncommitted ==> after.positions[part.slot]
                == all.last().records.last().offset.wrapping_add(1)
            &&& all.len() > 0 && !uncommitted && all[0].records[0].offset >= part.last_stable_offset
                ==> after.positions[part.slot] == reading.positions[part.slot] && got is None
            &&& list.len() == 0 ==> after_list.positions[part.slot] == reading.positions[part.slot]
                && got_list is None
            &&& list.len() > 0 && uncommitted ==> after_list.positions[part.slot]
                == list.last().offset.wrapping_add(1)
            &&& list.len() > 0 && !uncommitted && list[0].offset >= part.last_stable_offset
                ==> after_list.positions[part.slot] == reading.positions[part.slot] && got_list
                is None
        }),
{
    let all = records::nonempty(batches);
    let steps = records::batch_steps(all);
    consumer::law_nothing_past_the_last_stable_offset(
        steps,
        reading.isolation,
        part.last_stable_offset,
    );
    consumer::law_nothing_past_the_last_stable_offset(
        consumer::record_steps(list),
        reading.isolation,
        part.last_stable_offset,
    );
    if all.len() > 0 {
        assert(steps[0].offset == all[0].records[0].offset);
    }
    if list.len() > 0 {
        assert(consumer::record_steps(list)[0].offset == list[0].offset);
    }
}

/// What one partition of one broker's answer yields is in what the poll hands out, whichever
/// broker and partition it is.
pub proof fn law_what_a_partition_yields_reaches_the_caller(
    reading: Reading,
    replies: Seq<Heard>,
    states: Seq<Reading>,
    parts: Seq<Seq<Yield>>,
    r: int,
    inner: Seq<Reading>,
    yields: Seq<Option<Yield>>,
    i: int,
)
    requires
        answers_lead(replies, states, parts, replies.len()),
        states[0] == reading,
        0 <= r < replies.len(),
        replies[r].answer.unwrap().code == 0,
        parts_lead(replies[r].answer.unwrap().parts, inner, yields),
        inner[0] == states[r].agreeing(
            replies[r].addr,
            replies[r].answer.unwrap().session_id,
            replies[r].slots,
        ),
        0 <= i < yields.len(),
        yields[i] is Some,
    ensures
        reading.polled(replies).1 matches Ok(list) && list.contains(yields[i].unwrap()),
{
    let answer = replies[r].answer.unwrap();
    let some = |y: Option<Yield>| y is Some;
    let held = |y: Option<Yield>| y.unwrap();
    law_a_poll_hands_out_every_answer(reading, replies, states, parts);
    law_an_answer_yields_every_partition(inner[0], answer.parts, inner, yields);
    assert(parts[r] == yields.filter(some).map_values(held));
    yields.lemma_filter_contains(some, i);
    let k = choose|k: int|
        0 <= k < yields.filter(some).len() && yields.filter(some)[k] == yields[i];
    assert(parts[r][k] == yields[i].unwrap());
    let at = parts.take(r).flatten().len() as int;
    let list = parts.flatten();
    lemma_flattened(parts, r);
    lemma_flattened_fits(parts, r);
    assert(list.subrange(at, at + parts[r].len())[k] == list[at + k]);
}

proof fn lemma_flattened_fits(parts: Seq<Seq<Yield>>, r: int)
    requires
        0 <= r < parts.len(),
    ensures
        parts.take(r).flatten().len() + parts[r].len() <= parts.flatten().len(),
{
    let before = parts.take(r);
    let behind = parts.skip(r + 1);
    before.lemma_flatten_push(parts[r]);
    assert(before.push(parts[r]) + behind =~= parts);
    vstd::seq_lib::lemma_flatten_concat(before.push(parts[r]), behind);
}

/// A partition that a fetch moved is named in the next one: what the broker is taken to know
/// is where the consumer stood when it asked, not where the answer took it.
pub proof fn law_a_moved_partition_is_named_again(
    reading: Reading,
    addr: Seq<char>,
    slots: Seq<(Seq<char>, i32)>,
    disposition: Disposition,
    session_id: i32,
    parts: Seq<Arrived>,
    slot: (Seq<char>, i32),
)
    requires
        reading.positions.dom().contains(slot),
        slots.contains(slot),
        reading.answered(addr, slots, 0, disposition, session_id, parts).1 is Ok,
    ensures
        ({
            let after = reading.answered(addr, slots, 0, disposition, session_id, parts).0;
            &&& after.positions.dom() == reading.positions.dom()
            &&& after.positions[slot] != reading.positions[slot] ==> after.names(addr, slot)
            &&& reading.incremental && session_id != 0 && after.positions[slot]
                == reading.positions[slot] ==> !after.names(addr, slot)
        }),
{
    let told = reading.agreeing(addr, session_id, slots);
    law_an_accepted_fetch_is_remembered(reading, addr, session_id, slots);
    lemma_only_positions_move(told, parts, parts.len());
    if reading.incremental {
        assert(told.sessions[addr].known.dom().contains(slot));
        assert(told.sessions[addr].known[slot] == reading.positions[slot]);
    }
}

proof fn lemma_only_positions_move(reading: Reading, parts: Seq<Arrived>, n: nat)
    requires
        n <= parts.len(),
    ensures
        ({
            let after = reading.taken_all(parts, n).0;
            &&& after == (Reading { positions: after.positions, ..reading })
            &&& after.positions.dom() == reading.positions.dom()
        }),
    decreases n,
{
    if n > 0 {
        lemma_only_positions_move(reading, parts, (n - 1) as nat);
        let before = reading.taken_all(parts, (n - 1) as nat).0;
        law_an_answer_moves_its_own_partition_alone(before, parts[n - 1]);
    }
}

} // verus!
