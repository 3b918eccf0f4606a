//! Looking offsets up by timestamp: one request per leader, tried again where a leader
//! moved.
use crate::client;
use crate::client::{Disposition, Error, Fault};
use crate::consumer;
use crate::consumer::IsolationLevel;
use crate::fetching;
use crate::fetching::LATEST;
use crate::group;
use crate::group::TopicPartition;
use crate::grouping;
use crate::names;
use crate::sender;
use crate::slots;
use crate::slots::SlotMap;
use vstd::prelude::*;

verus! {

/// How often a lookup is tried again when a broker says that leadership moved.
pub const MAX_LEADER_RETRIES: usize = 5;

/// How long to wait before asking again, in milliseconds. Asking at once would ask the
/// same question of the same cluster state.
pub const LEADER_BACKOFF_MS: u64 = 100;

/// The code of a broker that does not lead a partition.
pub const NOT_LEADER_OR_FOLLOWER: i16 = 6;

/// What to do about the answer to one partition's lookup.
#[derive(Debug)]
pub enum LookupStep {
    Found(i64),
    /// The leader moved: forget it, ask for the topic's metadata, and try again.
    Moved { wait_ms: u64 },
    Failed(Error),
}

/// What a [`LookupStep`] stands for.
pub ghost enum Looked {
    Found(i64),
    Moved(u64),
    Failed(Fault),
}

impl View for LookupStep {
    type V = Looked;

    open spec fn view(&self) -> Looked {
        match self {
            LookupStep::Found(offset) => Looked::Found(*offset),
            LookupStep::Moved { wait_ms } => Looked::Moved(*wait_ms),
            LookupStep::Failed(e) => Looked::Failed(e@),
        }
    }
}

/// One partition in an answer to a lookup.
#[derive(Debug)]
pub struct OffsetAnswer {
    pub slot: TopicPartition,
    pub code: i16,
    pub disposition: Disposition,
    /// Negative where there is nothing at or after the timestamp.
    pub offset: i64,
    pub timestamp: i64,
}

/// What an [`OffsetAnswer`] stands for.
pub ghost struct Located {
    pub slot: (Seq<char>, i32),
    pub code: i16,
    pub disposition: Disposition,
    pub offset: i64,
    pub timestamp: i64,
}

impl View for OffsetAnswer {
    type V = Located;

    open spec fn view(&self) -> Located {
        Located {
            slot: self.slot@,
            code: self.code,
            disposition: self.disposition,
            offset: self.offset,
            timestamp: self.timestamp,
        }
    }
}

/// What a list of answers stands for.
pub open spec fn located(answers: Seq<OffsetAnswer>) -> Seq<Located> {
    Seq::new(answers.len(), |i: int| answers[i]@)
}

/// The first of the answers from `i` on that is about a partition.
pub open spec fn about(answers: Seq<Located>, partition: i32, i: nat) -> Option<Located>
    decreases answers.len() - i,
{
    if i >= answers.len() {
        None
    } else if answers[i as int].slot.1 == partition {
        Some(answers[i as int])
    } else {
        about(answers, partition, i + 1)
    }
}

/// What to do about the answer to one partition's lookup at an attempt.
pub open spec fn looked(attempt: usize, answer: Option<Located>) -> Looked {
    match answer {
        None => Looked::Failed(Fault::Missing("partition"@)),
        Some(a) => if a.disposition == Disposition::RefreshMetadata {
            if attempt >= MAX_LEADER_RETRIES {
                Looked::Failed(Fault::Broker("ListOffsets"@, a.code, a.disposition))
            } else {
                Looked::Moved(LEADER_BACKOFF_MS)
            }
        } else if a.code != 0 {
            Looked::Failed(Fault::Broker("ListOffsets"@, a.code, a.disposition))
        } else {
            Looked::Found(a.offset)
        },
    }
}

/// Decides over the answer to one partition's lookup.
pub fn on_list_offset(attempt: usize, partition: i32, answers: &[OffsetAnswer]) -> (step: LookupStep)
    ensures
        step@ == looked(attempt, about(located(answers@), partition, 0)),
{
    let ghost all = located(answers@);
    let mut i: usize = 0;
    while i < answers.len()
        invariant
            i <= answers@.len(),
            all == located(answers@),
            about(all, partition, 0) == about(all, partition, i as nat),
        decreases answers@.len() - i,
    {
        let answer = &answers[i];
        assert(all[i as int] == answer@);
        if answer.slot.partition == partition {
            if let Disposition::RefreshMetadata = answer.disposition {
                if attempt >= MAX_LEADER_RETRIES {
                    return LookupStep::Failed(
                        Error::Broker {
                            op: "ListOffsets",
                            code: answer.code,
                            disposition: answer.disposition,
                        },
                    );
                }
                return LookupStep::Moved { wait_ms: LEADER_BACKOFF_MS };
            }
            return match client::check("ListOffsets", answer.code, answer.disposition) {
                Ok(()) => LookupStep::Found(answer.offset),
                Err(e) => LookupStep::Failed(e),
            };
        }
        i = i + 1;
    }
    LookupStep::Failed(Error::Missing("partition"))
}

/// Decides over a partition that has no leader: mid-election, that is a wait and not a
/// failure. `None` says that waiting is over.
pub fn on_no_leader(attempt: usize) -> (wait_ms: Option<u64>)
    ensures
        wait_ms == if attempt < MAX_LEADER_RETRIES {
            Some(LEADER_BACKOFF_MS)
        } else {
            None
        },
{
    if attempt < MAX_LEADER_RETRIES {
        Some(LEADER_BACKOFF_MS)
    } else {
        None
    }
}

/// One partition in a lookup request.
#[derive(Debug, Clone, Copy, PartialEq, Eq, Structural)]
pub struct LookupEntry {
    pub partition: i32,
    pub timestamp: i64,
}

/// A lookup request, for one leader.
#[derive(Debug)]
pub struct ListOffsetsRequest {
    pub replica_id: i32,
    pub isolation_level: i8,
    /// By topic.
    pub topics: Vec<(String, Vec<LookupEntry>)>,
}

/// The entries of a lookup request.
pub open spec fn lookup_entries(want: Seq<((Seq<char>, i32), i64)>) -> Seq<
    (Seq<char>, LookupEntry),
> {
    Seq::new(
        want.len(),
        |i: int| (want[i].0.0, LookupEntry { partition: want[i].0.1, timestamp: want[i].1 }),
    )
}

/// The request that looks these partitions up.
pub fn list_offsets(want: &Vec<(TopicPartition, i64)>, isolation: IsolationLevel) -> (request:
    ListOffsetsRequest)
    ensures
        request.replica_id == -1,
        request.isolation_level == consumer::isolation_number(isolation),
        grouping::groups_of(
            lookup_entries(fetching::numbered(want@)),
            grouping::group_views(request.topics@),
        ),
{
    let mut entries: Vec<(String, LookupEntry)> = Vec::new();
    let mut i: usize = 0;
    while i < want.len()
        invariant
            i <= want@.len(),
            entries@.len() == i,
            forall|k: int|
                0 <= k < i ==> ((#[trigger] entries@[k]).0@, entries@[k].1) == (
                    want@[k].0@.0,
                    LookupEntry { partition: want@[k].0@.1, timestamp: want@[k].1 },
                ),
        decreases want@.len() - i,
    {
        entries.push(
            (
                want[i].0.topic.clone(),
                LookupEntry { partition: want[i].0.partition, timestamp: want[i].1 },
            ),
        );
        i = i + 1;
    }
    assert(grouping::entry_views(entries@) =~= lookup_entries(fetching::numbered(want@)));
    ListOffsetsRequest {
        replica_id: -1,
        isolation_level: isolation.as_i8(),
        topics: grouping::grouped(entries),
    }
}

/// A lookup of many partitions: what was found, and what is still asked for.
#[derive(Debug)]
pub struct Lookup {
    remaining: Vec<(TopicPartition, i64)>,
    found: SlotMap<(i64, i64)>,
    attempt: usize,
    /// Of this attempt: what to ask for again, and the topics whose leaders moved.
    again: Vec<(TopicPartition, i64)>,
    moved: Vec<String>,
    /// The last partition of this attempt that had no leader.
    leaderless: Option<TopicPartition>,
}

/// What a [`Lookup`] stands for.
pub ghost struct Search {
    pub remaining: Seq<((Seq<char>, i32), i64)>,
    pub found: Map<(Seq<char>, i32), (i64, i64)>,
    pub attempt: usize,
    pub again: Seq<((Seq<char>, i32), i64)>,
    pub moved: Seq<Seq<char>>,
    pub leaderless: Option<(Seq<char>, i32)>,
}

impl View for Lookup {
    type V = Search;

    closed spec fn view(&self) -> Search {
        Search {
            remaining: fetching::numbered(self.remaining@),
            found: self.found@,
            attempt: self.attempt,
            again: fetching::numbered(self.again@),
            moved: names::names_of(self.moved@),
            leaderless: match self.leaderless {
                Some(tp) => Some(tp@),
                None => None,
            },
        }
    }
}

/// Partitions, each with a timestamp, and each with its leader's address, among the
/// first `n` that have one.
pub open spec fn with_leaders(
    want: Seq<((Seq<char>, i32), i64)>,
    leaders: Seq<Option<Seq<char>>>,
    n: nat,
) -> Seq<(Seq<char>, ((Seq<char>, i32), i64))>
    decreases n,
{
    if n == 0 {
        Seq::empty()
    } else {
        let earlier = with_leaders(want, leaders, (n - 1) as nat);
        match leaders[n - 1] {
            Some(addr) => earlier.push((addr, want[n - 1])),
            None => earlier,
        }
    }
}

/// The last of the first `n` partitions without a leader.
pub open spec fn last_leaderless(
    want: Seq<((Seq<char>, i32), i64)>,
    leaders: Seq<Option<Seq<char>>>,
    n: nat,
) -> Option<(Seq<char>, i32)>
    decreases n,
{
    if n == 0 {
        None
    } else if leaders[n - 1] is None {
        Some(want[n - 1].0)
    } else {
        last_leaderless(want, leaders, (n - 1) as nat)
    }
}

/// What a list of leaders' lookups stands for.
pub open spec fn lookups_of(groups: Seq<(String, Vec<(TopicPartition, i64)>)>) -> Seq<
    (Seq<char>, Seq<((Seq<char>, i32), i64)>),
> {
    Seq::new(groups.len(), |g: int| (groups[g].0@, fetching::numbered(groups[g].1@)))
}

/// The timestamp that a partition was asked for with, [`LATEST`] if it was not asked
/// for.
pub open spec fn asked_with(
    want: Seq<((Seq<char>, i32), i64)>,
    slot: (Seq<char>, i32),
    i: nat,
) -> i64
    decreases want.len() - i,
{
    if i >= want.len() {
        LATEST
    } else if want[i as int].0 == slot {
        want[i as int].1
    } else {
        asked_with(want, slot, i + 1)
    }
}

impl Search {
    /// After one partition's answer; `None` where it is a failure.
    pub open spec fn answered(self, want: Seq<((Seq<char>, i32), i64)>, answer: Located) -> Option<
        Search,
    > {
        if answer.code == 0 {
            if answer.offset >= 0 {
                Some(
                    Search {
                        found: self.found.insert(answer.slot, (answer.offset, answer.timestamp)),
                        ..self
                    },
                )
            } else {
                Some(self)
            }
        } else if answer.disposition == Disposition::RefreshMetadata {
            Some(
                Search {
                    again: self.again.push((answer.slot, asked_with(want, answer.slot, 0))),
                    moved: self.moved.push(answer.slot.0),
                    ..self
                },
            )
        } else {
            None
        }
    }

    /// After the first `n` partitions' answers, and the failure that ended them.
    pub open spec fn answered_all(
        self,
        want: Seq<((Seq<char>, i32), i64)>,
        answers: Seq<Located>,
        n: nat,
    ) -> (Search, Option<Fault>)
        decreases n,
    {
        if n == 0 {
            (self, None)
        } else {
            let (search, failed) = self.answered_all(want, answers, (n - 1) as nat);
            match failed {
                Some(e) => (search, Some(e)),
                None => match search.answered(want, answers[n - 1]) {
                    Some(next) => (next, None),
                    None => (
                        search,
                        Some(
                            Fault::Broker(
                                "ListOffsets"@,
                                answers[n - 1].code,
                                answers[n - 1].disposition,
                            ),
                        ),
                    ),
                },
            }
        }
    }

    /// What is asked for again: what moved, and, where a partition had no leader,
    /// everything of the first `n` that was not found.
    pub open spec fn still_wanted(self, n: nat) -> Seq<((Seq<char>, i32), i64)>
        decreases n,
    {
        if n == 0 {
            self.again
        } else {
            let earlier = self.still_wanted((n - 1) as nat);
            let want = self.remaining[n - 1];
            if self.found.dom().contains(want.0) || mentions(earlier, want.0) {
                earlier
            } else {
                earlier.push(want)
            }
        }
    }

    /// What is left to ask for after an attempt.
    pub open spec fn left(self) -> Seq<((Seq<char>, i32), i64)> {
        if self.leaderless is Some {
            self.still_wanted(self.remaining.len())
        } else {
            self.again
        }
    }
}

/// Whether a list mentions a partition.
pub open spec fn mentions(list: Seq<((Seq<char>, i32), i64)>, slot: (Seq<char>, i32)) -> bool {
    exists|i: int| 0 <= i < list.len() && (#[trigger] list[i]).0 == slot
}

/// What follows an attempt.
#[derive(Debug)]
pub enum SearchEnd {
    /// What was found: the offset and the record's timestamp. A partition with nothing at
    /// or after its timestamp is absent.
    Done(SlotMap<(i64, i64)>),
    /// Ask for these topics' metadata, wait, and look up what is left.
    Again { refresh: Vec<String>, wait_ms: u64 },
    Failed(Error),
}

fn copied(want: &Vec<(TopicPartition, i64)>) -> (out: Vec<(TopicPartition, i64)>)
    ensures
        fetching::numbered(out@) == fetching::numbered(want@),
{
    let mut out: Vec<(TopicPartition, i64)> = Vec::new();
    let mut i: usize = 0;
    while i < want.len()
        invariant
            i <= want@.len(),
            out@.len() == i,
            forall|k: int|
                0 <= k < i ==> (#[trigger] out@[k]).0@ == want@[k].0@ && out@[k].1 == want@[k].1,
        decreases want@.len() - i,
    {
        out.push((want[i].0.clone(), want[i].1));
        i = i + 1;
    }
    assert(fetching::numbered(out@) =~= fetching::numbered(want@));
    out
}

fn timestamp_of(want: &Vec<(TopicPartition, i64)>, tp: &TopicPartition) -> (timestamp: i64)
    ensures
        timestamp == asked_with(fetching::numbered(want@), tp@, 0),
{
    let ghost all = fetching::numbered(want@);
    let mut i: usize = 0;
    while i < want.len()
        invariant
            i <= want@.len(),
            all == fetching::numbered(want@),
            asked_with(all, tp@, 0) == asked_with(all, tp@, i as nat),
        decreases want@.len() - i,
    {
        assert(all[i as int] == (want@[i as int].0@, want@[i as int].1));
        if want[i].0.is(tp) {
            return want[i].1;
        }
        i = i + 1;
    }
    LATEST
}

fn is_mentioned(list: &Vec<(TopicPartition, i64)>, tp: &TopicPartition) -> (yes: bool)
    ensures
        yes == mentions(fetching::numbered(list@), tp@),
{
    let ghost all = fetching::numbered(list@);
    let mut i: usize = 0;
    while i < list.len()
        invariant
            i <= list@.len(),
            all == fetching::numbered(list@),
            forall|k: int| 0 <= k < i ==> (#[trigger] all[k]).0 != tp@,
        decreases list@.len() - i,
    {
        assert(all[i as int] == (list@[i as int].0@, list@[i as int].1));
        if list[i].0.is(tp) {
            return true;
        }
        i = i + 1;
    }
    false
}

impl Lookup {
    pub closed spec fn well_formed(&self) -> bool {
        self.found.well_formed()
    }

    /// A lookup of these partitions, each at a timestamp.
    pub fn new(want: &Vec<(TopicPartition, i64)>) -> (lookup: Self)
        ensures
            lookup.well_formed(),
            lookup@ == (Search {
                remaining: fetching::numbered(want@),
                found: Map::empty(),
                attempt: 0,
                again: Seq::empty(),
                moved: Seq::empty(),
                leaderless: None,
            }),
    {
        let lookup = Lookup {
            remaining: copied(want),
            found: SlotMap::new(),
            attempt: 0,
            again: Vec::new(),
            moved: Vec::new(),
            leaderless: None,
        };
        assert(lookup@.again =~= Seq::empty());
        assert(lookup@.moved =~= Seq::empty());
        lookup
    }

    /// What is still asked for.
    pub fn remaining(&self) -> (list: &Vec<(TopicPartition, i64)>)
        ensures
            fetching::numbered(list@) == self@.remaining,
    {
        &self.remaining
    }

    /// Groups what is asked for by leader, afresh each attempt: a retry is usually there
    /// because leadership moved. `leaders` has an address for each partition, or none,
    /// in the order of [`Lookup::remaining`].
    pub fn by_leader(&mut self, leaders: Vec<Option<String>>) -> (groups: Vec<
        (String, Vec<(TopicPartition, i64)>),
    >)
        requires
            old(self).well_formed(),
            leaders@.len() == old(self)@.remaining.len(),
        ensures
            final(self).well_formed(),
            ({
                let want = old(self)@.remaining;
                let given = sender::leaders_of(leaders@);
                &&& grouping::groups_of(
                    with_leaders(want, given, want.len()),
                    lookups_of(groups@),
                )
                &&& final(self)@ == (Search {
                    leaderless: last_leaderless(want, given, want.len()),
                    again: Seq::empty(),
                    moved: Seq::empty(),
                    ..old(self)@
                })
            }),
    {
        let ghost want = self@.remaining;
        let ghost given = leaders@;
        let ghost seen = sender::leaders_of(given);
        let total: usize = self.remaining.len();
        let mut pairs: Vec<(String, (TopicPartition, i64))> = Vec::new();
        let mut leaderless: Option<TopicPartition> = None;
        let mut i: usize = 0;
        assert(paired(pairs@) =~= Seq::empty());
        for leader in it: leaders
            invariant
                it.seq() == given,
                seen == sender::leaders_of(given),
                given.len() == total,
                total == self.remaining@.len(),
                want == fetching::numbered(self.remaining@),
                i == it.index(),
                paired(pairs@) == with_leaders(want, seen, i as nat),
                last_leaderless(want, seen, i as nat) == match leaderless {
                    Some(tp) => Some(tp@),
                    None => None,
                },
        {
            assert(seen[i as int] == client::optional_text(leader));
            let entry = &self.remaining[i];
            assert(want[i as int] == (entry.0@, entry.1));
            let ghost earlier = pairs@;
            match leader {
                Some(addr) => {
                    pairs.push((addr, (entry.0.clone(), entry.1)));
                    assert(paired(pairs@) =~= paired(earlier).push((addr@, want[i as int])));
                },
                None => {
                    leaderless = Some(entry.0.clone());
                },
            }
            i = i + 1;
        }
        let ghost entries = grouping::entry_views(pairs@);
        let groups = grouping::grouped(pairs);
        proof {
            let f = |w: (TopicPartition, i64)| (w.0@, w.1);
            let found = grouping::group_views(groups@);
            let mapped = with_leaders(want, seen, want.len());
            let mapped_groups = lookups_of(groups@);
            assert forall|k: int| 0 <= k < entries.len() implies #[trigger] mapped[k] == (
                entries[k].0,
                f(entries[k].1),
            ) by {
                assert(paired(pairs@)[k] == mapped[k]);
            }
            assert forall|g: int| 0 <= g < found.len() implies #[trigger] mapped_groups[g] == (
                found[g].0,
                found[g].1.map_values(f),
            ) by {
                assert(fetching::numbered(groups@[g].1@) =~= groups@[g].1@.map_values(f));
            }
            grouping::lemma_groups_mapped(entries, found, mapped, mapped_groups, f);
        }
        self.leaderless = leaderless;
        self.again = Vec::new();
        self.moved = Vec::new();
        assert(self@.again =~= Seq::empty());
        assert(self@.moved =~= Seq::empty());
        groups
    }

    /// Takes one leader's answer to the lookup of `want`.
    pub fn on_answer(&mut self, want: &Vec<(TopicPartition, i64)>, answers: &[OffsetAnswer]) -> (
    result: Result<(), Error>)
        requires
            old(self).well_formed(),
        ensures
            final(self).well_formed(),
            ({
                let (search, failed) = old(self)@.answered_all(
                    fetching::numbered(want@),
                    located(answers@),
                    answers@.len(),
                );
                &&& final(self)@ == search
                &&& match failed {
                    Some(e) => result is Err && result->Err_0@ == e,
                    None => result is Ok,
                }
            }),
            result is Ok ==> forall|i: int|
                #![trigger answers@[i]]
                0 <= i < answers@.len() && answers@[i].code == 0 && answers@[i].offset >= 0 && (
                forall|j: int|
                    i < j < answers@.len() ==> (#[trigger] answers@[j]).slot@ != answers@[i].slot@)
                    ==> {
                    &&& final(self)@.found.dom().contains(answers@[i].slot@)
                    &&& final(self)@.found[answers@[i].slot@] == (
                        answers@[i].offset,
                        answers@[i].timestamp,
                    )
                },
    {
        let ghost before = self@;
        let ghost asked = fetching::numbered(want@);
        let ghost all = located(answers@);
        let mut i: usize = 0;
        while i < answers.len()
            invariant
                self.well_formed(),
                i <= answers@.len(),
                before == old(self)@,
                asked == fetching::numbered(want@),
                all == located(answers@),
                before.answered_all(asked, all, i as nat) == (self@, None::<Fault>),
            decreases answers@.len() - i,
        {
            let answer = &answers[i];
            assert(all[i as int] == answer@);
            let ghost now = self@;
            if answer.code == 0 {
                if answer.offset >= 0 {
                    self.found.insert(
                        answer.slot.topic.as_str(),
                        answer.slot.partition,
                        (answer.offset, answer.timestamp),
                    );
                }
            } else if let Disposition::RefreshMetadata = answer.disposition {
                let timestamp: i64 = timestamp_of(want, &answer.slot);
                let ghost again = self.again@;
                let ghost moved = self.moved@;
                self.again.push((answer.slot.clone(), timestamp));
                self.moved.push(answer.slot.topic.clone());
                proof {
                    assert(fetching::numbered(self.again@) =~= fetching::numbered(again).push(
                        (answer.slot@, timestamp),
                    ));
                    assert(names::names_of(self.moved@) =~= names::names_of(moved).push(
                        answer.slot@.0,
                    ));
                }
            } else {
                proof {
                    lemma_failed_stays(before, asked, all, (i + 1) as nat, all.len());
                }
                return Err(
                    Error::Broker {
                        op: "ListOffsets",
                        code: answer.code,
                        disposition: answer.disposition,
                    },
                );
            }
            i = i + 1;
        }
        proof {
            law_every_answer_is_taken(before, asked, all, all.len());
            assert forall|i: int|
                #![trigger answers@[i]]
                0 <= i < answers@.len() && answers@[i].code == 0 && answers@[i].offset >= 0 && (
                forall|j: int|
                    i < j < answers@.len() ==> (#[trigger] answers@[j]).slot@
                        != answers@[i].slot@) implies {
                &&& self@.found.dom().contains(answers@[i].slot@)
                &&& self@.found[answers@[i].slot@] == (answers@[i].offset, answers@[i].timestamp)
            } by {
                assert(all[i] == answers@[i]@);
                assert forall|j: int| i < j < all.len() implies !locates(
                    #[trigger] all[j],
                    all[i].slot,
                ) by {
                    assert(all[j].slot == answers@[j].slot@);
                }
            }
        }
        Ok(())
    }

    /// The partitions whose leader moved in this attempt: what is known of it is to be
    /// forgotten.
    pub fn moved(&self) -> (list: &Vec<(TopicPartition, i64)>)
        ensures
            fetching::numbered(list@) == self@.again,
    {
        &self.again
    }

    /// Ends an attempt.
    pub fn finish(&mut self) -> (end: SearchEnd)
        requires
            old(self).well_formed(),
            old(self)@.attempt <= MAX_LEADER_RETRIES,
        ensures
            final(self).well_formed(),
            ({
                let before = old(self)@;
                let last = before.attempt == MAX_LEADER_RETRIES;
                if before.leaderless is Some && before.again.len() == 0 && last {
                    let slot = before.leaderless.unwrap();
                    &&& end matches SearchEnd::Failed(e)
                    &&& e@ == Fault::NoLeader(slot.0, slot.1)
                    &&& final(self)@ == before
                } else if before.left().len() == 0 {
                    &&& end matches SearchEnd::Done(found)
                    &&& found.well_formed()
                    &&& found@ == before.found
                    &&& final(self)@ == (Search {
                        found: Map::empty(),
                        again: before.left(),
                        ..before
                    })
                } else if last {
                    &&& end matches SearchEnd::Failed(e)
                    &&& e@ == Fault::Broker(
                        "ListOffsets"@,
                        NOT_LEADER_OR_FOLLOWER,
                        Disposition::RefreshMetadata,
                    )
                    &&& final(self)@ == (Search { again: before.left(), ..before })
                } else {
                    &&& end matches SearchEnd::Again { refresh, wait_ms }
                    &&& names::lists(names::names_of(refresh@), before.moved.to_set())
                    &&& wait_ms == LEADER_BACKOFF_MS
                    &&& final(self)@ == (Search {
                        remaining: before.left(),
                        attempt: (before.attempt + 1) as usize,
                        again: Seq::empty(),
                        ..before
                    })
                }
            }),
    {
        let ghost before = self@;
        let last = self.attempt == MAX_LEADER_RETRIES;
        if self.leaderless.is_some() {
            if self.again.len() == 0 && last {
                if let Some(tp) = &self.leaderless {
                    return SearchEnd::Failed(
                        Error::NoLeader { topic: tp.topic.clone(), partition: tp.partition },
                    );
                }
            }
            let mut i: usize = 0;
            while i < self.remaining.len()
                invariant
                    self.well_formed(),
                    i <= self.remaining@.len(),
                    self@ == (Search { again: before.still_wanted(i as nat), ..before }),
                decreases self.remaining@.len() - i,
            {
                let tp = self.remaining[i].0.clone();
                let timestamp: i64 = self.remaining[i].1;
                assert(before.remaining[i as int] == (tp@, timestamp));
                let ghost again = self.again@;
                if !self.found.contains(tp.topic.as_str(), tp.partition) && !is_mentioned(
                    &self.again,
                    &tp,
                ) {
                    self.again.push((tp, timestamp));
                    assert(fetching::numbered(self.again@) =~= fetching::numbered(again).push(
                        (tp@, timestamp),
                    ));
                }
                i = i + 1;
            }
        }
        assert(self@.again == before.left());
        if self.again.len() == 0 {
            let mut found: SlotMap<(i64, i64)> = SlotMap::new();
            std::mem::swap(&mut found, &mut self.found);
            return SearchEnd::Done(found);
        }
        if last {
            return SearchEnd::Failed(
                Error::Broker {
                    op: "ListOffsets",
                    code: NOT_LEADER_OR_FOLLOWER,
                    disposition: Disposition::RefreshMetadata,
                },
            );
        }
        let refresh = names::distinct(&self.moved);
        let mut again: Vec<(TopicPartition, i64)> = Vec::new();
        std::mem::swap(&mut again, &mut self.again);
        assert(fetching::numbered(self.again@) =~= Seq::empty());
        self.remaining = again;
        self.attempt = self.attempt + 1;
        SearchEnd::Again { refresh, wait_ms: LEADER_BACKOFF_MS }
    }
}

spec fn paired(pairs: Seq<(String, (TopicPartition, i64))>) -> Seq<
    (Seq<char>, ((Seq<char>, i32), i64)),
> {
    Seq::new(pairs.len(), |i: int| (pairs[i].0@, (pairs[i].1.0@, pairs[i].1.1)))
}

proof fn lemma_failed_stays(
    search: Search,
    want: Seq<((Seq<char>, i32), i64)>,
    answers: Seq<Located>,
    n: nat,
    m: nat,
)
    requires
        n <= m,
        search.answered_all(want, answers, n).1 is Some,
    ensures
        search.answered_all(want, answers, m) == search.answered_all(want, answers, n),
    decreases m,
{
    if n < m {
        lemma_failed_stays(search, want, answers, n, (m - 1) as nat);
    }
}

/// Partitions, each at the same timestamp: [`LATEST`] asks for log ends, and
/// [`fetching::EARLIEST`] for the oldest offsets still retained.
pub fn all_at(partitions: &Vec<TopicPartition>, timestamp: i64) -> (want: Vec<
    (TopicPartition, i64),
>)
    ensures
        fetching::numbered(want@) == group::slots_of(partitions@).map_values(
            |slot: (Seq<char>, i32)| (slot, timestamp),
        ),
{
    let mut want: Vec<(TopicPartition, i64)> = Vec::new();
    let mut i: usize = 0;
    while i < partitions.len()
        invariant
            i <= partitions@.len(),
            want@.len() == i,
            forall|k: int|
                0 <= k < i ==> (#[trigger] want@[k]).0@ == partitions@[k]@ && want@[k].1
                    == timestamp,
        decreases partitions@.len() - i,
    {
        want.push((partitions[i].clone(), timestamp));
        i = i + 1;
    }
    assert(fetching::numbered(want@) =~= group::slots_of(partitions@).map_values(
        |slot: (Seq<char>, i32)| (slot, timestamp),
    ));
    want
}

/// What was found, without the timestamps.
pub fn offsets_only(found: &SlotMap<(i64, i64)>) -> (offsets: SlotMap<i64>)
    requires
        found.well_formed(),
    ensures
        offsets.well_formed(),
        offsets@ == found@.map_values(|f: (i64, i64)| f.0),
{
    let entries = found.entries();
    let mut offsets: SlotMap<i64> = SlotMap::new();
    let mut i: usize = 0;
    while i < entries.len()
        invariant
            i <= entries@.len(),
            found@ == slots::as_map(entries@),
            slots::distinct_keys(entries@),
            offsets.well_formed(),
            forall|slot: (Seq<char>, i32)| #[trigger]
                offsets@.dom().contains(slot) ==> found@.dom().contains(slot) && offsets@[slot]
                    == found@[slot].0,
            forall|k: int| 0 <= k < i ==> offsets@.dom().contains((#[trigger] entries@[k]).0@),
        decreases entries@.len() - i,
    {
        proof {
            slots::lemma_at(entries@, i as int);
        }
        offsets.insert(entries[i].0.topic.as_str(), entries[i].0.partition, entries[i].1.0);
        i = i + 1;
    }
    proof {
        assert(offsets@ =~= found@.map_values(|f: (i64, i64)| f.0)) by {
            assert forall|slot: (Seq<char>, i32)| found@.dom().contains(slot) implies #[trigger]
            offsets@.dom().contains(slot) by {
                assert(slots::has_key(entries@, slot));
                let k = slots::key_at(entries@, slot);
                assert(entries@[k].0@ == slot);
            }
        }
    }
    offsets
}

/// How far behind its log end a partition is: never less than zero.
pub open spec fn behind(end: i64, position: i64) -> i64 {
    if end > position {
        (end - position) as i64
    } else {
        0
    }
}

/// How far behind its log end each partition is. One whose end is not known is absent:
/// "unknown" and "zero" are different answers.
pub fn lag(positions: &SlotMap<i64>, ends: &SlotMap<i64>) -> (lags: SlotMap<i64>)
    requires
        positions.well_formed(),
        ends.well_formed(),
        forall|slot: (Seq<char>, i32)| #[trigger]
            positions@.dom().contains(slot) && ends@.dom().contains(slot) ==> i64::MIN
                <= ends@[slot] - positions@[slot] <= i64::MAX,
    ensures
        lags.well_formed(),
        lags@ == Map::new(
            |slot: (Seq<char>, i32)| positions@.dom().contains(slot) && ends@.dom().contains(slot),
            |slot: (Seq<char>, i32)| behind(ends@[slot], positions@[slot]),
        ),
{
    let entries = positions.entries();
    let mut lags: SlotMap<i64> = SlotMap::new();
    let mut i: usize = 0;
    while i < entries.len()
        invariant
            i <= entries@.len(),
            ends.well_formed(),
            positions@ == slots::as_map(entries@),
            slots::distinct_keys(entries@),
            lags.well_formed(),
            forall|slot: (Seq<char>, i32)| #[trigger]
                positions@.dom().contains(slot) && ends@.dom().contains(slot) ==> i64::MIN
                    <= ends@[slot] - positions@[slot] <= i64::MAX,
            forall|slot: (Seq<char>, i32)| #[trigger]
                lags@.dom().contains(slot) ==> positions@.dom().contains(slot)
                    && ends@.dom().contains(slot) && lags@[slot] == behind(
                    ends@[slot],
                    positions@[slot],
                ),
            forall|k: int|
                0 <= k < i && ends@.dom().contains((#[trigger] entries@[k]).0@)
                    ==> lags@.dom().contains(entries@[k].0@),
        decreases entries@.len() - i,
    {
        let topic = entries[i].0.topic.as_str();
        let partition: i32 = entries[i].0.partition;
        proof {
            slots::lemma_at(entries@, i as int);
            assert(positions@.dom().contains(entries@[i as int].0@));
        }
        if let Some(end) = ends.get(topic, partition) {
            let distance: i64 = if *end > entries[i].1 {
                *end - entries[i].1
            } else {
                0
            };
            lags.insert(topic, partition, distance);
        }
        i = i + 1;
    }
    proof {
        let all = Map::new(
            |slot: (Seq<char>, i32)| positions@.dom().contains(slot) && ends@.dom().contains(slot),
            |slot: (Seq<char>, i32)| behind(ends@[slot], positions@[slot]),
        );
        assert(lags@ =~= all) by {
            assert forall|slot: (Seq<char>, i32)|
                positions@.dom().contains(slot) && ends@.dom().contains(slot) implies #[trigger]
            lags@.dom().contains(slot) by {
                assert(slots::has_key(entries@, slot));
                let k = slots::key_at(entries@, slot);
                assert(entries@[k].0@ == slot);
            }
        }
    }
    lags
}

/// Where a partition mid-election has no leader, a lookup loses none of what it was
/// asked for: what was neither found nor is already asked for again is asked for again.
pub proof fn law_a_lookup_loses_nothing_to_an_election(search: Search, i: int)
    requires
        search.leaderless is Some,
        0 <= i < search.remaining.len(),
    ensures
        search.found.dom().contains(search.remaining[i].0) || mentions(
            search.left(),
            search.remaining[i].0,
        ),
{
    lemma_still_wanted(search, i, search.remaining.len());
}

proof fn lemma_still_wanted(search: Search, i: int, n: nat)
    requires
        0 <= i < n <= search.remaining.len(),
    ensures
        search.found.dom().contains(search.remaining[i].0) || mentions(
            search.still_wanted(n),
            search.remaining[i].0,
        ),
    decreases n,
{
    let slot = search.remaining[i].0;
    let earlier = search.still_wanted((n - 1) as nat);
    let now = search.still_wanted(n);
    if i < n - 1 {
        lemma_still_wanted(search, i, (n - 1) as nat);
        if mentions(earlier, slot) {
            let k = choose|k: int| 0 <= k < earlier.len() && (#[trigger] earlier[k]).0 == slot;
            assert(now[k].0 == slot);
        }
    } else if !search.found.dom().contains(slot) && !mentions(earlier, slot) {
        assert(now[earlier.len() as int].0 == slot);
    }
}

/// Whether an answer says where a partition's offset is: no error, and an offset of zero
/// or more.
pub open spec fn locates(answer: Located, slot: (Seq<char>, i32)) -> bool {
    answer.slot == slot && answer.code == 0 && answer.offset >= 0
}

/// Every offset that an answer gives is found, offset zero too, with exactly that offset
/// and timestamp, the last answer about a partition counting. Nothing else is found, and
/// nothing that was found is lost. Every partition whose leader moved is asked for again,
/// with the timestamp that it was asked for with, and its topic is looked up again.
pub proof fn law_every_answer_is_taken(
    search: Search,
    want: Seq<((Seq<char>, i32), i64)>,
    answers: Seq<Located>,
    n: nat,
)
    requires
        n <= answers.len(),
        search.answered_all(want, answers, n).1 is None,
    ensures
        ({
            let after = search.answered_all(want, answers, n).0;
            let moved = answers.take(n as int).filter(|a: Located| a.code != 0);
            &&& forall|i: int|
                #![trigger answers[i]]
                0 <= i < n && answers[i].code == 0 && answers[i].offset >= 0 && (forall|j: int|
                    i < j < n ==> !locates(#[trigger] answers[j], answers[i].slot)) ==> {
                    &&& after.found.dom().contains(answers[i].slot)
                    &&& after.found[answers[i].slot] == (answers[i].offset, answers[i].timestamp)
                }
            &&& forall|slot: (Seq<char>, i32)|
                #![trigger after.found.dom().contains(slot)]
                #![trigger after.found[slot]]
                (forall|j: int| 0 <= j < n ==> !locates(#[trigger] answers[j], slot)) ==> {
                    &&& after.found.dom().contains(slot) == search.found.dom().contains(slot)
                    &&& search.found.dom().contains(slot) ==> after.found[slot]
                        == search.found[slot]
                }
            &&& forall|i: int|
                0 <= i < n ==> ((#[trigger] answers[i]).code != 0 ==> answers[i].disposition
                    == Disposition::RefreshMetadata)
            &&& after.again == search.again + moved.map_values(
                |a: Located| (a.slot, asked_with(want, a.slot, 0)),
            )
            &&& after.moved == search.moved + moved.map_values(|a: Located| a.slot.0)
            &&& after.remaining == search.remaining
            &&& after.attempt == search.attempt
            &&& after.leaderless == search.leaderless
        }),
    decreases n,
{
    reveal(Seq::filter);
    let failing = |a: Located| a.code != 0;
    let again = |a: Located| (a.slot, asked_with(want, a.slot, 0));
    let topic = |a: Located| a.slot.0;
    let moved = answers.take(n as int).filter(failing);
    let after = search.answered_all(want, answers, n).0;
    if n == 0 {
        assert(moved =~= Seq::empty());
        assert(after.again =~= search.again + moved.map_values(again));
        assert(after.moved =~= search.moved + moved.map_values(topic));
    } else {
        law_every_answer_is_taken(search, want, answers, (n - 1) as nat);
        let earlier = answers.take(n - 1).filter(failing);
        let before = search.answered_all(want, answers, (n - 1) as nat).0;
        let last = answers[n - 1];
        assert(answers.take(n as int).drop_last() =~= answers.take(n - 1));
        assert(answers.take(n as int).last() == last);
        if last.code != 0 {
            assert(moved == earlier.push(last));
            assert(moved.map_values(again) =~= earlier.map_values(again).push(again(last)));
            assert(moved.map_values(topic) =~= earlier.map_values(topic).push(topic(last)));
        }
        assert(after.again =~= search.again + moved.map_values(again));
        assert(after.moved =~= search.moved + moved.map_values(topic));
        assert forall|slot: (Seq<char>, i32)|
            (forall|j: int| 0 <= j < n ==> !locates(#[trigger] answers[j], slot)) implies {
            &&& #[trigger] after.found.dom().contains(slot) == search.found.dom().contains(slot)
            &&& search.found.dom().contains(slot) ==> after.found[slot] == search.found[slot]
        } by {
            assert(!locates(answers[n - 1], slot));
            assert(before.found.dom().contains(slot) == search.found.dom().contains(slot));
        }
        assert forall|i: int|
            #![trigger answers[i]]
            0 <= i < n && answers[i].code == 0 && answers[i].offset >= 0 && (forall|j: int|
                i < j < n ==> !locates(#[trigger] answers[j], answers[i].slot)) implies {
            &&& after.found.dom().contains(answers[i].slot)
            &&& after.found[answers[i].slot] == (answers[i].offset, answers[i].timestamp)
        } by {
            if i < n - 1 {
                assert(!locates(answers[n - 1], answers[i].slot));
            }
        }
    }
}

/// A lookup fails with the first answer that is an error and not a moved leader, and only
/// with such an answer.
pub proof fn law_a_lookup_fails_with_the_first_refusal(
    search: Search,
    want: Seq<((Seq<char>, i32), i64)>,
    answers: Seq<Located>,
    n: nat,
)
    requires
        n <= answers.len(),
    ensures
        match search.answered_all(want, answers, n).1 {
            None => forall|i: int|
                0 <= i < n ==> (#[trigger] answers[i]).code == 0 || answers[i].disposition
                    == Disposition::RefreshMetadata,
            Some(e) => exists|i: int|
                #![trigger answers[i]]
                0 <= i < n && answers[i].code != 0 && answers[i].disposition
                    != Disposition::RefreshMetadata && e == Fault::Broker(
                    "ListOffsets"@,
                    answers[i].code,
                    answers[i].disposition,
                ) && forall|j: int|
                    0 <= j < i ==> (#[trigger] answers[j]).code == 0 || answers[j].disposition
                        == Disposition::RefreshMetadata,
        },
    decreases n,
{
    if n > 0 {
        law_a_lookup_fails_with_the_first_refusal(search, want, answers, (n - 1) as nat);
        assert(answers[n - 1] == answers[n - 1]);
    }
}

/// A partition that moved is asked for again with the timestamp that it was first asked
/// for with; one that was never asked for, with that of the log's end.
pub proof fn law_a_retry_asks_the_same_question(
    want: Seq<((Seq<char>, i32), i64)>,
    slot: (Seq<char>, i32),
)
    ensures
        forall|i: int|
            0 <= i < want.len() && (#[trigger] want[i]).0 == slot && (forall|j: int|
                0 <= j < i ==> (#[trigger] want[j]).0 != slot) ==> asked_with(want, slot, 0)
                == want[i].1,
        !mentions(want, slot) ==> asked_with(want, slot, 0) == -1,
{
    lemma_asked_with(want, slot, 0);
}

proof fn lemma_asked_with(want: Seq<((Seq<char>, i32), i64)>, slot: (Seq<char>, i32), k: nat)
    requires
        k <= want.len(),
        forall|j: int| 0 <= j < k ==> (#[trigger] want[j]).0 != slot,
    ensures
        forall|i: int|
            0 <= i < want.len() && (#[trigger] want[i]).0 == slot && (forall|j: int|
                0 <= j < i ==> (#[trigger] want[j]).0 != slot) ==> asked_with(want, slot, k)
                == want[i].1,
        !mentions(want, slot) ==> asked_with(want, slot, k) == -1,
    decreases want.len() - k,
{
    if k < want.len() {
        if want[k as int].0 != slot {
            lemma_asked_with(want, slot, k + 1);
        } else {
            assert(mentions(want, slot));
        }
    }
}

/// The one answer that counts is the first about the partition, and there is none only
/// where no answer is about it.
pub proof fn law_the_first_answer_about_a_partition_counts(answers: Seq<Located>, partition: i32)
    ensures
        forall|i: int|
            0 <= i < answers.len() && (#[trigger] answers[i]).slot.1 == partition && (forall|j: int|
                0 <= j < i ==> (#[trigger] answers[j]).slot.1 != partition) ==> about(
                answers,
                partition,
                0,
            ) == Some(answers[i]),
        about(answers, partition, 0) is None <==> forall|i: int|
            0 <= i < answers.len() ==> (#[trigger] answers[i]).slot.1 != partition,
{
    lemma_about(answers, partition, 0);
}

proof fn lemma_about(answers: Seq<Located>, partition: i32, k: nat)
    requires
        k <= answers.len(),
        forall|j: int| 0 <= j < k ==> (#[trigger] answers[j]).slot.1 != partition,
    ensures
        forall|i: int|
            0 <= i < answers.len() && (#[trigger] answers[i]).slot.1 == partition && (forall|j: int|
                0 <= j < i ==> (#[trigger] answers[j]).slot.1 != partition) ==> about(
                answers,
                partition,
                k,
            ) == Some(answers[i]),
        about(answers, partition, k) is None <==> forall|i: int|
            0 <= i < answers.len() ==> (#[trigger] answers[i]).slot.1 != partition,
    decreases answers.len() - k,
{
    if k < answers.len() {
        if answers[k as int].slot.1 != partition {
            lemma_about(answers, partition, k + 1);
        }
    }
}

/// A leader that moved is waited for five times, a tenth of a second each, and is then a
/// failure that names the code; any other error is a failure at once; and an answer
/// without an error is the offset it holds, whatever the attempt.
pub proof fn law_a_moved_leader_is_waited_for(attempt: usize, answer: Located)
    ensures
        answer.disposition == Disposition::RefreshMetadata && attempt < 5 ==> looked(
            attempt,
            Some(answer),
        ) == Looked::Moved(100),
        answer.disposition == Disposition::RefreshMetadata && attempt >= 5 ==> looked(
            attempt,
            Some(answer),
        ) == Looked::Failed(
            Fault::Broker("ListOffsets"@, answer.code, Disposition::RefreshMetadata),
        ),
        answer.disposition != Disposition::RefreshMetadata && answer.code == 0 ==> looked(
            attempt,
            Some(answer),
        ) == Looked::Found(answer.offset),
        answer.disposition != Disposition::RefreshMetadata && answer.code != 0 ==> looked(
            attempt,
            Some(answer),
        ) == Looked::Failed(
            Fault::Broker("ListOffsets"@, answer.code, answer.disposition),
        ),
        looked(attempt, None) == Looked::Failed(Fault::Missing("partition"@)),
        MAX_LEADER_RETRIES == 5,
        LEADER_BACKOFF_MS == 100,
        NOT_LEADER_OR_FOLLOWER == 6,
{
}

/// Each partition that has a leader is asked of that leader, at its own timestamp, in the
/// order in which they were asked for; and the partition that a failed lookup names is
/// the last one without a leader.
pub proof fn law_each_partition_is_asked_of_its_leader(
    want: Seq<((Seq<char>, i32), i64)>,
    leaders: Seq<Option<Seq<char>>>,
    n: nat,
)
    requires
        want.len() == leaders.len(),
        n <= want.len(),
    ensures
        with_leaders(want, leaders, n) == Seq::new(n, |i: int| i).filter(
            |i: int| leaders[i] is Some,
        ).map_values(|i: int| (leaders[i].unwrap(), want[i])),
        forall|i: int|
            0 <= i < n && (#[trigger] leaders[i]) is None && (forall|j: int|
                i < j < n ==> (#[trigger] leaders[j]) is Some) ==> last_leaderless(want, leaders, n)
                == Some(want[i].0),
        last_leaderless(want, leaders, n) is None <==> forall|i: int|
            0 <= i < n ==> (#[trigger] leaders[i]) is Some,
    decreases n,
{
    reveal(Seq::filter);
    let led = |i: int| leaders[i] is Some;
    let entry = |i: int| (leaders[i].unwrap(), want[i]);
    let all = Seq::new(n, |i: int| i);
    if n == 0 {
        assert(with_leaders(want, leaders, n) =~= all.filter(led).map_values(entry));
    } else {
        law_each_partition_is_asked_of_its_leader(want, leaders, (n - 1) as nat);
        let earlier = Seq::new((n - 1) as nat, |i: int| i);
        assert(all.drop_last() =~= earlier);
        assert(all.last() == n - 1);
        if leaders[n - 1] is Some {
            assert(all.filter(led) == earlier.filter(led).push(n - 1));
            assert(all.filter(led).map_values(entry) =~= earlier.filter(led).map_values(
                entry,
            ).push(entry(n - 1)));
        }
        assert(with_leaders(want, leaders, n) =~= all.filter(led).map_values(entry));
    }
}

/// What is asked for again was asked for: it moved, or it was not found, and it is asked
/// for with the timestamp that it had. Without an election it is exactly what moved.
pub proof fn law_only_what_is_missing_is_asked_for_again(search: Search, i: int)
    requires
        0 <= i < search.left().len(),
    ensures
        search.again.contains(search.left()[i]) || (search.remaining.contains(search.left()[i])
            && !search.found.dom().contains(search.left()[i].0)),
        search.leaderless is None ==> search.left() == search.again,
        i < search.again.len() ==> search.left()[i] == search.again[i],
        search.again.len() <= search.left().len(),
{
    if search.leaderless is Some {
        lemma_left(search, search.remaining.len(), i);
    }
}

proof fn lemma_left(search: Search, n: nat, i: int)
    requires
        n <= search.remaining.len(),
        0 <= i < search.still_wanted(n).len(),
    ensures
        search.again.contains(search.still_wanted(n)[i]) || (search.remaining.contains(
            search.still_wanted(n)[i],
        ) && !search.found.dom().contains(search.still_wanted(n)[i].0)),
        i < search.again.len() ==> search.still_wanted(n)[i] == search.again[i],
        search.again.len() <= search.still_wanted(n).len(),
    decreases n,
{
    if n > 0 {
        let earlier = search.still_wanted((n - 1) as nat);
        if i < earlier.len() {
            lemma_left(search, (n - 1) as nat, i);
        } else {
            assert(search.still_wanted(n)[i] == search.remaining[n - 1]);
            if earlier.len() > 0 {
                lemma_left(search, (n - 1) as nat, 0);
            } else {
                lemma_keeps_again(search, (n - 1) as nat);
            }
        }
    }
}

proof fn lemma_keeps_again(search: Search, n: nat)
    requires
        n <= search.remaining.len(),
    ensures
        search.again.len() <= search.still_wanted(n).len(),
    decreases n,
{
    if n > 0 {
        lemma_keeps_again(search, (n - 1) as nat);
    }
}

/// How far behind a partition is takes it from its position to the log's end, and is
/// nothing once the position is there.
pub proof fn law_the_lag_leads_to_the_end(end: i64, position: i64)
    requires
        end - position <= i64::MAX,
    ensures
        behind(end, position) >= 0,
        position <= end ==> position + behind(end, position) == end,
        position >= end ==> behind(end, position) == 0,
{
}

/// A lookup request asks for each partition under its own topic, at its own timestamp.
pub proof fn law_a_lookup_request_asks_for_each_partition(
    want: Seq<((Seq<char>, i32), i64)>,
    i: int,
)
    requires
        0 <= i < want.len(),
    ensures
        lookup_entries(want).len() == want.len(),
        lookup_entries(want)[i].0 == want[i].0.0,
        lookup_entries(want)[i].1.partition == want[i].0.1,
        lookup_entries(want)[i].1.timestamp == want[i].1,
{
}

} // verus!
