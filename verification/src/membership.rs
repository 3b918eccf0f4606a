//! Membership of a consumer group under the classic protocol: what to ask the
//! coordinator for, and what its answers mean.
//!
//! The member's own state machine stays outside; what it reports is a [`MemberState`].
use crate::assignor::Assignor;
use crate::blobs;
use crate::buffer;
use crate::client;
use crate::client::{Disposition, Error, Fault, COORDINATOR_NOT_AVAILABLE};
use crate::error::Flaw;
use crate::group;
use crate::group::{PartitionCounts, Subscription, TopicPartition};
use crate::grouping;
use crate::names;
use crate::retry;
use crate::retry::Verdict;
use crate::slots;
use crate::slots::SlotMap;
use bytes::Bytes;
use vstd::prelude::*;
use vstd::string::StrSliceExecFns;

verus! {

/// The code of a coordinator that is still loading.
pub const COORDINATOR_LOAD_IN_PROGRESS: i16 = 14;

/// The code of a group that is rebalancing.
pub const REBALANCE_IN_PROGRESS: i16 = 27;

/// How many times to wait for a coordinator that is still being created.
pub const COORDINATOR_RETRIES: usize = 40;

/// How long each of those waits is, in milliseconds.
pub const COORDINATOR_BACKOFF_MS: u64 = 250;

/// Added to the rebalance timeout, in milliseconds, so that the broker decides that a
/// slow rebalance has failed.
pub const JOIN_SLACK_MS: u64 = 5_000;

/// A member's identity and its fencing token.
///
/// A transactional commit of offsets carries it, so that the coordinator can refuse a
/// member that has been replaced. It comes from a live member and cannot be made up by
/// a caller: committing without one is how a zombie writes.
#[derive(Debug)]
pub struct GroupMetadata {
    group_id: String,
    generation_id: i32,
    member_id: String,
    group_instance_id: Option<String>,
}

/// What a [`GroupMetadata`] stands for.
pub ghost struct Token {
    pub group_id: Seq<char>,
    pub generation_id: i32,
    pub member_id: Seq<char>,
    pub group_instance_id: Option<Seq<char>>,
}

impl View for GroupMetadata {
    type V = Token;

    closed spec fn view(&self) -> Token {
        Token {
            group_id: self.group_id@,
            generation_id: self.generation_id,
            member_id: self.member_id@,
            group_instance_id: client::optional_text(self.group_instance_id),
        }
    }
}

impl GroupMetadata {
    /// The group: the one part that a caller chose, and may read.
    pub fn group_id(&self) -> (id: &str)
        ensures
            id@ == self@.group_id,
    {
        self.group_id.as_str()
    }

    pub(crate) fn generation_id(&self) -> (id: i32)
        ensures
            id == self@.generation_id,
    {
        self.generation_id
    }

    pub(crate) fn member_id(&self) -> (id: &str)
        ensures
            id@ == self@.member_id,
    {
        self.member_id.as_str()
    }

    pub(crate) fn group_instance_id(&self) -> (id: Option<String>)
        ensures
            client::optional_text(id) == self@.group_instance_id,
    {
        match &self.group_instance_id {
            Some(id) => Some(id.clone()),
            None => None,
        }
    }
}

/// Where a member stands, as its state machine reports it.
#[derive(Debug)]
pub struct MemberState {
    pub member_id: String,
    pub generation: i32,
    /// Assigned, with no rebalance going on.
    pub stable: bool,
    /// Whether the member's claim on its partitions is current.
    pub can_commit: bool,
    pub assignment: Vec<TopicPartition>,
    /// What the member gave up in the rebalance that is going on.
    pub lost: Vec<TopicPartition>,
}

/// Where membership stands after a step.
#[derive(Debug)]
pub enum Membership {
    /// Still joining or syncing; call again.
    InProgress,
    /// Assigned and stable. The partitions are this member's to fetch.
    Assigned(Vec<TopicPartition>),
    /// These partitions were given up. The caller stops fetching them **before** the
    /// next call: another member is about to be given them.
    Revoked(Vec<TopicPartition>),
}

/// What a [`Membership`] stands for.
pub ghost enum Standing {
    InProgress,
    Assigned(Seq<(Seq<char>, i32)>),
    Revoked(Seq<(Seq<char>, i32)>),
}

impl View for Membership {
    type V = Standing;

    open spec fn view(&self) -> Standing {
        match self {
            Membership::InProgress => Standing::InProgress,
            Membership::Assigned(list) => Standing::Assigned(group::slots_of(list@)),
            Membership::Revoked(list) => Standing::Revoked(group::slots_of(list@)),
        }
    }
}

/// What members give up when a group rebalances.
#[derive(Debug, Clone, Copy, PartialEq, Eq, Structural)]
pub enum RebalanceProtocol {
    /// Everything, before anyone is assigned anything.
    Eager,
    /// Only what moves.
    Cooperative,
}

/// The classic protocol: join, sync, heartbeat.
#[derive(Debug)]
pub struct ClassicProtocol<A> {
    group_id: String,
    topics: Vec<String>,
    assignor: A,
    coordinator: Option<String>,
    session_timeout_ms: i32,
    rebalance_timeout_ms: i32,
    /// Whether the last revocation was announced.
    announced_revoked: bool,
    /// Whether anything was ever assigned: the first join gives nothing up.
    ever_assigned: bool,
}

/// What a [`ClassicProtocol`] stands for.
pub ghost struct Belonging<A> {
    pub group_id: Seq<char>,
    pub topics: Seq<Seq<char>>,
    pub assignor: A,
    pub coordinator: Option<Seq<char>>,
    pub session_timeout_ms: i32,
    pub rebalance_timeout_ms: i32,
    pub announced_revoked: bool,
    pub ever_assigned: bool,
}

impl<A> View for ClassicProtocol<A> {
    type V = Belonging<A>;

    closed spec fn view(&self) -> Belonging<A> {
        Belonging {
            group_id: self.group_id@,
            topics: names::names_of(self.topics@),
            assignor: self.assignor,
            coordinator: client::optional_text(self.coordinator),
            session_timeout_ms: self.session_timeout_ms,
            rebalance_timeout_ms: self.rebalance_timeout_ms,
            announced_revoked: self.announced_revoked,
            ever_assigned: self.ever_assigned,
        }
    }
}

impl<A> Belonging<A> {
    /// After a step: what is remembered, and where membership stands.
    pub open spec fn advanced(
        self,
        stable: bool,
        assignment: Seq<(Seq<char>, i32)>,
        lost: Seq<(Seq<char>, i32)>,
        moved: bool,
    ) -> (Belonging<A>, Standing) {
        let coordinator = if moved {
            None
        } else {
            self.coordinator
        };
        if stable {
            (
                Belonging { coordinator, announced_revoked: false, ever_assigned: true, ..self },
                Standing::Assigned(assignment),
            )
        } else if self.ever_assigned && !self.announced_revoked {
            (
                Belonging { coordinator, announced_revoked: true, ..self },
                Standing::Revoked(lost),
            )
        } else {
            (Belonging { coordinator, ..self }, Standing::InProgress)
        }
    }
}

/// A request to join.
#[derive(Debug)]
pub struct JoinRequest {
    pub group_id: String,
    pub member_id: String,
    pub session_timeout_ms: i32,
    pub rebalance_timeout_ms: i32,
    pub protocol_type: &'static str,
    pub protocol_name: &'static str,
    pub metadata: Bytes,
    /// How long to wait for the answer: the coordinator holds it until the whole group
    /// has joined.
    pub deadline_ms: u64,
}

/// A request for the assignment; the leader's carries everyone's.
#[derive(Debug)]
pub struct SyncRequest {
    pub group_id: String,
    pub generation_id: i32,
    pub member_id: String,
    pub protocol_type: &'static str,
    pub protocol_name: &'static str,
    pub assignments: Vec<(String, Bytes)>,
}

/// A heartbeat.
#[derive(Debug)]
pub struct HeartbeatRequest {
    pub group_id: String,
    pub generation_id: i32,
    pub member_id: String,
}

/// One offset to commit: **the next one to read**, not the last one read.
#[derive(Debug, Clone, Copy, PartialEq, Eq, Structural)]
pub struct OffsetEntry {
    pub partition: i32,
    pub offset: i64,
    pub leader_epoch: i32,
}

/// A request to commit offsets.
#[derive(Debug)]
pub struct OffsetCommit {
    pub group_id: String,
    pub generation_id: i32,
    pub member_id: String,
    /// By topic.
    pub topics: Vec<(String, Vec<OffsetEntry>)>,
}

/// The entries of a commit of the first `n` offsets.
pub open spec fn offset_entries(
    offsets: Map<(Seq<char>, i32), i64>,
    keys: Seq<(Seq<char>, i32)>,
    n: nat,
) -> Seq<(Seq<char>, OffsetEntry)> {
    Seq::new(
        n,
        |i: int|
            (
                keys[i].0,
                OffsetEntry { partition: keys[i].1, offset: offsets[keys[i]], leader_epoch: -1i32 },
            ),
    )
}

/// Whether a commit's topics are these offsets.
pub open spec fn commits(
    offsets: Map<(Seq<char>, i32), i64>,
    topics: Seq<(String, Vec<OffsetEntry>)>,
) -> bool {
    let keys = slots::keys_of(offsets.dom());
    grouping::groups_of(
        offset_entries(offsets, keys, keys.len()),
        grouping::group_views(topics),
    )
}

/// Puts offsets under their topics.
pub fn offsets_by_topic(offsets: &SlotMap<i64>) -> (topics: Vec<(String, Vec<OffsetEntry>)>)
    requires
        offsets.well_formed(),
    ensures
        commits(offsets@, topics@),
{
    let list = offsets.entries();
    let ghost keys = slots::keys_of(offsets@.dom());
    proof {
        slots::lemma_entry_keys(list@);
    }
    let mut entries: Vec<(String, OffsetEntry)> = Vec::new();
    let mut i: usize = 0;
    while i < list.len()
        invariant
            i <= list@.len(),
            entries@.len() == i,
            offsets@ == slots::as_map(list@),
            slots::distinct_keys(list@),
            keys == slots::entry_keys(list@),
            forall|k: int|
                0 <= k < i ==> ((#[trigger] entries@[k]).0@, entries@[k].1) == (
                    keys[k].0,
                    OffsetEntry {
                        partition: keys[k].1,
                        offset: offsets@[keys[k]],
                        leader_epoch: -1i32,
                    },
                ),
        decreases list@.len() - i,
    {
        proof {
            slots::lemma_at(list@, i as int);
        }
        entries.push(
            (
                list[i].0.topic.clone(),
                OffsetEntry { partition: list[i].0.partition, offset: list[i].1, leader_epoch: -1 },
            ),
        );
        i = i + 1;
    }
    assert(grouping::entry_views(entries@) =~= offset_entries(offsets@, keys, keys.len()));
    grouping::grouped(entries)
}

/// What to do about the answer to a search for a group's coordinator. The first search
/// for a new group is expected to fail: the offsets topic is created by that request.
pub open spec fn search_outcome(
    attempt: usize,
    code: i16,
    disposition: Disposition,
) -> retry::Outcome {
    if code == 0 {
        retry::Outcome::Done
    } else if code == COORDINATOR_NOT_AVAILABLE || code == COORDINATOR_LOAD_IN_PROGRESS {
        if attempt + 1 < COORDINATOR_RETRIES {
            retry::Outcome::Again(COORDINATOR_BACKOFF_MS)
        } else {
            retry::Outcome::Fail(
                COORDINATOR_BACKOFF_MS,
                "FindCoordinator"@,
                COORDINATOR_NOT_AVAILABLE,
                Disposition::Retry,
            )
        }
    } else {
        retry::Outcome::Fail(0, "FindCoordinator"@, code, disposition)
    }
}

/// How long to wait for a join to be answered.
pub open spec fn join_deadline(rebalance_timeout_ms: i32) -> u64 {
    if rebalance_timeout_ms >= 0 {
        (rebalance_timeout_ms + JOIN_SLACK_MS) as u64
    } else {
        (300_000 + JOIN_SLACK_MS) as u64
    }
}

impl<A: Assignor> ClassicProtocol<A> {
    /// Membership of a group that agreed on an assignor.
    pub fn new(group_id: &str, topics: Vec<String>, assignor: A) -> (me: Self)
        ensures
            me@ == (Belonging {
                group_id: group_id@,
                topics: names::names_of(topics@),
                assignor,
                coordinator: None,
                session_timeout_ms: 45_000,
                rebalance_timeout_ms: 300_000,
                announced_revoked: false,
                ever_assigned: false,
            }),
    {
        ClassicProtocol {
            group_id: group_id.to_owned(),
            topics,
            assignor,
            coordinator: None,
            session_timeout_ms: 45_000,
            rebalance_timeout_ms: 300_000,
            announced_revoked: false,
            ever_assigned: false,
        }
    }

    /// What members give up when the group rebalances. **The assignor decides it**: the
    /// name that the group agrees on and the revocation flow are one choice.
    pub fn protocol(&self) -> (protocol: RebalanceProtocol)
        ensures
            protocol == if self@.assignor.protocol() == "cooperative-sticky"@ {
                RebalanceProtocol::Cooperative
            } else {
                RebalanceProtocol::Eager
            },
    {
        if names::same(self.assignor.name(), "cooperative-sticky") {
            RebalanceProtocol::Cooperative
        } else {
            RebalanceProtocol::Eager
        }
    }

    /// How long the coordinator waits for a heartbeat before it removes a member.
    pub fn set_session_timeout(&mut self, ms: i32)
        ensures
            final(self)@ == (Belonging { session_timeout_ms: ms, ..old(self)@ }),
    {
        self.session_timeout_ms = ms;
    }

    /// How long the coordinator waits for every member to rejoin.
    pub fn set_rebalance_timeout(&mut self, ms: i32)
        ensures
            final(self)@ == (Belonging { rebalance_timeout_ms: ms, ..old(self)@ }),
    {
        self.rebalance_timeout_ms = ms;
    }

    /// What this member is subscribed to.
    pub fn topics(&self) -> (topics: &Vec<String>)
        ensures
            names::names_of(topics@) == self@.topics,
    {
        &self.topics
    }

    /// The coordinator's address, `None` where it must be found first.
    pub fn coordinator(&self) -> (addr: Option<String>)
        ensures
            client::optional_text(addr) == self@.coordinator,
    {
        match &self.coordinator {
            Some(addr) => Some(addr.clone()),
            None => None,
        }
    }

    /// Takes the answer to a search for the coordinator.
    pub fn on_coordinator_found(
        &mut self,
        attempt: usize,
        code: i16,
        disposition: Disposition,
        host: &str,
        port: i32,
    ) -> (verdict: Verdict)
        ensures
            verdict@ == search_outcome(attempt, code, disposition),
            final(self)@ == if code == 0 {
                Belonging {
                    coordinator: Some(client::address_of(host@, port as int)),
                    ..old(self)@
                }
            } else {
                old(self)@
            },
    {
        if code == 0 {
            self.coordinator = Some(client::address(host, port));
            Verdict::Done
        } else if code == COORDINATOR_NOT_AVAILABLE || code == COORDINATOR_LOAD_IN_PROGRESS {
            if attempt < COORDINATOR_RETRIES - 1 {
                Verdict::Again { wait_ms: COORDINATOR_BACKOFF_MS }
            } else {
                Verdict::Fail {
                    wait_ms: COORDINATOR_BACKOFF_MS,
                    op: "FindCoordinator",
                    code: COORDINATOR_NOT_AVAILABLE,
                    disposition: Disposition::Retry,
                }
            }
        } else {
            Verdict::Fail { wait_ms: 0, op: "FindCoordinator", code, disposition }
        }
    }

    /// The request to join with this subscription.
    pub fn join(&self, member: &MemberState, subscription: &Subscription) -> (request: Result<
        JoinRequest,
        Error,
    >)
        ensures
            exists|owned: Seq<(Seq<char>, Seq<i32>)>| #[trigger]
                grouping::groups_of(subscription@.owned, owned) && blobs::writes_claim(
                    metadata_of(request),
                    blobs::Claim {
                        topics: subscription@.topics,
                        owned,
                        generation: subscription@.generation,
                    },
                ),
            request matches Ok(r) ==> {
                &&& r.group_id@ == self@.group_id
                &&& r.member_id@ == member.member_id@
                &&& r.session_timeout_ms == self@.session_timeout_ms
                &&& r.rebalance_timeout_ms == self@.rebalance_timeout_ms
                &&& r.protocol_type@ == "consumer"@
                &&& r.protocol_name@ == self@.assignor.protocol()
                &&& r.deadline_ms == join_deadline(self@.rebalance_timeout_ms)
            },
    {
        let encoded = blobs::encode_subscription(subscription);
        let ghost owned = choose|owned: Seq<(Seq<char>, Seq<i32>)>| #[trigger]
            grouping::groups_of(subscription@.owned, owned) && blobs::writes_claim(
                encoded,
                blobs::Claim {
                    topics: subscription@.topics,
                    owned,
                    generation: subscription@.generation,
                },
            );
        let result = match encoded {
            Err(e) => Err(e),
            Ok(metadata) => {
                let timeout: u64 = if self.rebalance_timeout_ms >= 0 {
                    self.rebalance_timeout_ms as u64
                } else {
                    300_000
                };
                Ok(
                    JoinRequest {
                        group_id: self.group_id.clone(),
                        member_id: member.member_id.clone(),
                        session_timeout_ms: self.session_timeout_ms,
                        rebalance_timeout_ms: self.rebalance_timeout_ms,
                        protocol_type: "consumer",
                        protocol_name: self.assignor.name(),
                        metadata,
                        deadline_ms: timeout + JOIN_SLACK_MS,
                    },
                )
            },
        };
        assert(grouping::groups_of(subscription@.owned, owned));
        result
    }

    /// Reads the members' subscriptions, for the leader. Only the leader is given them,
    /// and only it needs them.
    pub fn members(leader: &str, member_id: &str, members: &Vec<(String, Bytes)>) -> (list: Result<
        Vec<Subscription>,
        Error,
    >)
        ensures
            if leader@ != member_id@ {
                list matches Ok(l) && l@.len() == 0
            } else {
                match members_in(members@, members@.len()) {
                    Ok(read) => list matches Ok(l) && group::members_of(l@) == read,
                    Err(e) => list is Err && list->Err_0@ == Fault::Core(e),
                }
            },
    {
        let mut list: Vec<Subscription> = Vec::new();
        if !names::same(leader, member_id) {
            return Ok(list);
        }
        assert(group::members_of(list@) =~= Seq::empty());
        let mut i: usize = 0;
        while i < members.len()
            invariant
                leader@ == member_id@,
                i <= members@.len(),
                members_in(members@, i as nat) == Ok::<Seq<group::Member>, Flaw>(
                    group::members_of(list@),
                ),
            decreases members@.len() - i,
        {
            match blobs::decode_subscription(members[i].0.as_str(), &members[i].1) {
                Ok(subscription) => {
                    let ghost before = list@;
                    list.push(subscription);
                    assert(group::members_of(list@) =~= group::members_of(before).push(
                        subscription@,
                    ));
                },
                Err(e) => {
                    proof {
                        lemma_unreadable_stays(members@, (i + 1) as nat, members@.len());
                    }
                    return Err(e);
                },
            }
            i = i + 1;
        }
        Ok(list)
    }

    /// The request for the assignment.
    pub fn sync(&self, member: &MemberState, assignments: Vec<(String, Bytes)>) -> (request:
        SyncRequest)
        ensures
            request.group_id@ == self@.group_id,
            request.generation_id == member.generation,
            request.member_id@ == member.member_id@,
            request.protocol_type@ == "consumer"@,
            request.protocol_name@ == self@.assignor.protocol(),
            request.assignments == assignments,
    {
        SyncRequest {
            group_id: self.group_id.clone(),
            generation_id: member.generation,
            member_id: member.member_id.clone(),
            protocol_type: "consumer",
            protocol_name: self.assignor.name(),
            assignments,
        }
    }

    /// Reads the assignment out of the answer to a sync: none where the answer is an
    /// error, or holds nothing.
    pub fn assigned(code: i16, assignment: &Bytes) -> (partitions: Result<
        Vec<TopicPartition>,
        Error,
    >)
        ensures
            ({
                let s = buffer::contents(*assignment);
                if code != 0 || s.len() == 0 {
                    partitions matches Ok(p) && p@.len() == 0
                } else {
                    match blobs::topics_in(s) {
                        Ok(topics) => partitions matches Ok(p) && blobs::lists(
                            group::slots_of(p@),
                            topics,
                        ),
                        Err(e) => partitions is Err && partitions->Err_0@ == Fault::Core(e),
                    }
                }
            }),
    {
        if code == 0 && buffer::len(assignment) > 0 {
            blobs::decode_assignment(assignment)
        } else {
            Ok(Vec::new())
        }
    }

    /// The heartbeat.
    pub fn heartbeat(&self, member: &MemberState) -> (request: HeartbeatRequest)
        ensures
            request.group_id@ == self@.group_id,
            request.generation_id == member.generation,
            request.member_id@ == member.member_id@,
    {
        HeartbeatRequest {
            group_id: self.group_id.clone(),
            generation_id: member.generation,
            member_id: member.member_id.clone(),
        }
    }

    /// Computes everyone's assignment, as leader, and encodes it.
    pub fn assign(&self, members: &Vec<Subscription>, counts: &PartitionCounts) -> (assignments:
        Result<Vec<(String, Bytes)>, Error>)
        requires
            counts.well_formed(),
        ensures
            assignments matches Ok(list) ==> assigns(
                self@.assignor.decides(group::members_of(members@), counts.view()),
                list@,
            ),
            assignments matches Err(e) ==> exists|id: Seq<char>| #[trigger]
                group::has_id(group::members_of(members@), id) && refused_as(
                    e,
                    self@.assignor.decides(group::members_of(members@), counts.view())[id],
                ),
    {
        let assignment = self.assignor.assign(members.as_slice(), counts);
        let entries = assignment.entries();
        let ghost decided = assignment@;
        let mut list: Vec<(String, Bytes)> = Vec::new();
        let mut i: usize = 0;
        while i < entries.len()
            invariant
                i <= entries@.len(),
                list@.len() == i,
                decided == assignment@,
                forall|k: int|
                    0 <= k < entries@.len() ==> decided.dom().contains(
                        (#[trigger] entries@[k]).0@,
                    ) && decided[entries@[k].0@] == group::slots_of(entries@[k].1@),
                forall|k: int|
                    0 <= k < i ==> (#[trigger] list@[k]).0@ == entries@[k].0@ && assigned_as(
                        list@[k].1,
                        decided[entries@[k].0@],
                    ),
                decided == self@.assignor.decides(group::members_of(members@), counts.view()),
                forall|id: Seq<char>|
                    decided.dom().contains(id) <==> #[trigger] group::has_id(
                        group::members_of(members@),
                        id,
                    ),
            decreases entries@.len() - i,
        {
            let ghost slots = group::slots_of(entries@[i as int].1@);
            let message = blobs::encode_assignment(&entries[i].1);
            let ghost topics = choose|topics: Seq<(Seq<char>, Seq<i32>)>| #[trigger]
                grouping::groups_of(slots, topics) && blobs::writes_topics(message, topics);
            match message {
                Ok(bytes) => {
                    list.push((entries[i].0.clone(), bytes));
                    assert(grouping::groups_of(slots, topics));
                    assert(assigned_as(bytes, slots));
                },
                Err(e) => {
                    proof {
                        let id = entries@[i as int].0@;
                        assert(group::has_id(group::members_of(members@), id));
                        assert(grouping::groups_of(slots, topics));
                        assert(!blobs::topics_fit(topics));
                        assert(refused_as(e, slots));
                    }
                    return Err(e);
                },
            }
            i = i + 1;
        }
        proof {
            let ids = group::entries_of(entries@);
            assert forall|a: int, b: int| 0 <= a < b < list@.len() implies names::before(
                (#[trigger] list@[a]).0@,
                (#[trigger] list@[b]).0@,
            ) by {
                assert(names::before(ids[a].0, ids[b].0));
            }
            assert forall|id: Seq<char>| #[trigger] decided.dom().contains(id) implies has_recipient(
                list@,
                id,
            ) by {
                assert(group::has_entry(ids, id));
                let k = choose|k: int| 0 <= k < ids.len() && (#[trigger] ids[k]).0 == id;
                assert(list@[k].0@ == id);
            }
        }
        Ok(list)
    }

    /// Takes a step's end: where membership stands now.
    ///
    /// A revocation is announced once, and before the next request goes out. `moved`
    /// says that the step asked for the coordinator to be found again.
    pub fn advance(&mut self, member: &MemberState, moved: bool) -> (membership: Membership)
        ensures
            (final(self)@, membership@) == old(self)@.advanced(
                member.stable,
                group::slots_of(member.assignment@),
                group::slots_of(member.lost@),
                moved,
            ),
    {
        if moved {
            self.coordinator = None;
        }
        if member.stable {
            self.announced_revoked = false;
            self.ever_assigned = true;
            return Membership::Assigned(copied(&member.assignment));
        }
        if self.ever_assigned && !self.announced_revoked {
            self.announced_revoked = true;
            return Membership::Revoked(copied(&member.lost));
        }
        Membership::InProgress
    }

    /// The request to commit these offsets, `None` where there are none.
    ///
    /// It is refused, not sent, while the member's claim is not current: between a
    /// revocation and the next assignment the partitions may be someone else's, and the
    /// coordinator would not notice.
    pub fn commit(&self, member: &MemberState, offsets: &SlotMap<i64>) -> (request: Result<
        Option<OffsetCommit>,
        Error,
    >)
        requires
            offsets.well_formed(),
        ensures
            if offsets@ == Map::<(Seq<char>, i32), i64>::empty() {
                request matches Ok(None)
            } else if !member.can_commit {
                request is Err && request->Err_0@ == Fault::Broker(
                    "OffsetCommit"@,
                    REBALANCE_IN_PROGRESS,
                    Disposition::Retry,
                )
            } else {
                &&& request matches Ok(Some(r))
                &&& r.group_id@ == self@.group_id
                &&& r.generation_id == member.generation
                &&& r.member_id@ == member.member_id@
                &&& commits(offsets@, r.topics@)
            },
    {
        if offsets.is_empty() {
            return Ok(None);
        }
        if !member.can_commit {
            return Err(
                Error::Broker {
                    op: "OffsetCommit",
                    code: REBALANCE_IN_PROGRESS,
                    disposition: Disposition::Retry,
                },
            );
        }
        Ok(
            Some(
                OffsetCommit {
                    group_id: self.group_id.clone(),
                    generation_id: member.generation,
                    member_id: member.member_id.clone(),
                    topics: offsets_by_topic(offsets),
                },
            ),
        )
    }

    /// What proves that this member is current, for a transactional producer; `None`
    /// for a member whose claim is not, which would only be refused.
    pub fn group_metadata(&self, member: &MemberState) -> (metadata: Option<GroupMetadata>)
        ensures
            match metadata {
                Some(m) => member.can_commit && m@ == (Token {
                    group_id: self@.group_id,
                    generation_id: member.generation,
                    member_id: member.member_id@,
                    group_instance_id: None,
                }),
                None => !member.can_commit,
            },
    {
        if !member.can_commit {
            return None;
        }
        Some(
            GroupMetadata {
                group_id: self.group_id.clone(),
                generation_id: member.generation,
                member_id: member.member_id.clone(),
                group_instance_id: None,
            },
        )
    }

    /// The request for the offsets that the group committed: its group, and the
    /// partitions by topic; `None` where no partition is asked for.
    pub fn committed(&self, partitions: &Vec<TopicPartition>) -> (request: Option<
        (String, Vec<(String, Vec<i32>)>),
    >)
        ensures
            match request {
                None => partitions@.len() == 0,
                Some(r) => partitions@.len() > 0 && r.0@ == self@.group_id && grouping::groups_of(
                    group::slots_of(partitions@),
                    grouping::group_views(r.1@),
                ),
            },
    {
        if partitions.len() == 0 {
            return None;
        }
        Some((self.group_id.clone(), blobs::topics_of(partitions)))
    }

    /// Whether leaving takes a request: a member that never joined just goes.
    pub fn leave(&self, member: &MemberState) -> (request: Option<(String, String)>)
        ensures
            match request {
                None => member.member_id@.len() == 0,
                Some(r) => member.member_id@.len() > 0 && r.0@ == self@.group_id && r.1@
                    == member.member_id@,
            },
    {
        if member.member_id.as_str().unicode_len() == 0 {
            return None;
        }
        Some((self.group_id.clone(), member.member_id.clone()))
    }
}

/// What became of the request's subscription.
pub open spec fn metadata_of(request: Result<JoinRequest, Error>) -> Result<Bytes, Error> {
    match request {
        Ok(r) => Ok(r.metadata),
        Err(e) => Err(e),
    }
}

/// What the first `n` members say, or what is wrong with the first that cannot be read.
pub open spec fn members_in(members: Seq<(String, Bytes)>, n: nat) -> Result<
    Seq<group::Member>,
    Flaw,
>
    decreases n,
{
    if n == 0 {
        Ok(Seq::empty())
    } else {
        match members_in(members, (n - 1) as nat) {
            Err(e) => Err(e),
            Ok(earlier) => match blobs::member_in(
                members[n - 1].0@,
                buffer::contents(members[n - 1].1),
            ) {
                Err(e) => Err(e),
                Ok(member) => Ok(earlier.push(member)),
            },
        }
    }
}

proof fn lemma_unreadable_stays(members: Seq<(String, Bytes)>, n: nat, m: nat)
    requires
        n <= m,
        members_in(members, n) is Err,
    ensures
        members_in(members, m) == members_in(members, n),
    decreases m,
{
    if n < m {
        lemma_unreadable_stays(members, n, (m - 1) as nat);
    }
}

/// Whether these partitions were refused with this error: some list of them by topic is too
/// long for the format, and this is what its encoder said.
pub open spec fn refused_as(error: Error, slots: Seq<(Seq<char>, i32)>) -> bool {
    exists|topics: Seq<(Seq<char>, Seq<i32>)>| #[trigger]
        grouping::groups_of(slots, topics) && !blobs::topics_fit(topics) && blobs::writes_topics(
            Err(error),
            topics,
        )
}

/// Whether a message assigns these partitions.
pub open spec fn assigned_as(message: Bytes, slots: Seq<(Seq<char>, i32)>) -> bool {
    exists|topics: Seq<(Seq<char>, Seq<i32>)>| #[trigger]
        grouping::groups_of(slots, topics) && blobs::writes_topics(Ok(message), topics)
}

/// Whether a list has a message for a member.
pub open spec fn has_recipient(list: Seq<(String, Bytes)>, id: Seq<char>) -> bool {
    exists|k: int| 0 <= k < list.len() && (#[trigger] list[k]).0@ == id
}

/// Whether a list has a message for every member that was decided over and no other, in
/// the order of their ids, each with what it was assigned.
pub open spec fn assigns(
    decided: Map<Seq<char>, Seq<(Seq<char>, i32)>>,
    list: Seq<(String, Bytes)>,
) -> bool {
    &&& forall|a: int, b: int|
        0 <= a < b < list.len() ==> names::before((#[trigger] list[a]).0@, (#[trigger] list[b]).0@)
    &&& forall|id: Seq<char>| #[trigger] decided.dom().contains(id) ==> has_recipient(list, id)
    &&& forall|k: int|
        0 <= k < list.len() ==> decided.dom().contains((#[trigger] list[k]).0@) && assigned_as(
            list[k].1,
            decided[list[k].0@],
        )
}

fn copied(list: &Vec<TopicPartition>) -> (out: Vec<TopicPartition>)
    ensures
        group::slots_of(out@) == group::slots_of(list@),
{
    let mut out: Vec<TopicPartition> = Vec::new();
    let mut i: usize = 0;
    while i < list.len()
        invariant
            i <= list@.len(),
            out@.len() == i,
            forall|k: int| 0 <= k < i ==> (#[trigger] out@[k])@ == list@[k]@,
        decreases list@.len() - i,
    {
        out.push(list[i].clone());
        i = i + 1;
    }
    assert(group::slots_of(out@) =~= group::slots_of(list@));
    out
}

/// Takes the answer to a commit, which has a code per partition.
pub fn on_commit(answers: &[(i16, Disposition)]) -> (result: Result<(), Error>)
    ensures
        match client::first_refusal(answers@, answers@.len()) {
            None => result is Ok,
            Some(i) => result is Err && result->Err_0@ == Fault::Broker(
                "OffsetCommit"@,
                answers@[i].0,
                answers@[i].1,
            ),
        },
{
    client::check_all("OffsetCommit", answers)
}

/// What a coordinator says of one partition's committed offset.
#[derive(Debug)]
pub struct CommittedPartition {
    pub slot: TopicPartition,
    pub code: i16,
    pub disposition: Disposition,
    /// Negative where nothing was committed.
    pub offset: i64,
}

/// The codes of an answer.
pub open spec fn codes_of(parts: Seq<CommittedPartition>) -> Seq<(i16, Disposition)> {
    Seq::new(parts.len(), |i: int| (parts[i].code, parts[i].disposition))
}

/// The offsets among the first `n` partitions. One that was never committed is absent,
/// not zero: the two are different answers.
pub open spec fn committed_in(parts: Seq<CommittedPartition>, n: nat) -> Map<
    (Seq<char>, i32),
    i64,
>
    decreases n,
{
    if n == 0 {
        Map::empty()
    } else {
        let earlier = committed_in(parts, (n - 1) as nat);
        if parts[n - 1].offset >= 0 {
            earlier.insert(parts[n - 1].slot@, parts[n - 1].offset)
        } else {
            earlier
        }
    }
}

/// Reads the offsets that the group committed.
pub fn on_committed(code: i16, disposition: Disposition, parts: &[CommittedPartition]) -> (offsets:
    Result<SlotMap<i64>, Error>)
    ensures
        if code != 0 {
            offsets is Err && offsets->Err_0@ == Fault::Broker("OffsetFetch"@, code, disposition)
        } else {
            match client::first_refusal(codes_of(parts@), parts@.len()) {
                Some(i) => offsets is Err && offsets->Err_0@ == Fault::Broker(
                    "OffsetFetch partition"@,
                    parts@[i].code,
                    parts@[i].disposition,
                ),
                None => offsets matches Ok(map) && map.well_formed() && map@ == committed_in(
                    parts@,
                    parts@.len(),
                ),
            }
        },
{
    match client::check("OffsetFetch", code, disposition) {
        Ok(()) => {},
        Err(e) => {
            return Err(e);
        },
    }
    let ghost codes = codes_of(parts@);
    let mut map: SlotMap<i64> = SlotMap::new();
    let mut i: usize = 0;
    while i < parts.len()
        invariant
            code == 0,
            i <= parts@.len(),
            codes == codes_of(parts@),
            map.well_formed(),
            map@ == committed_in(parts@, i as nat),
            client::first_refusal(codes, i as nat) is None,
        decreases parts@.len() - i,
    {
        let part = &parts[i];
        assert(codes[i as int] == (part.code, part.disposition));
        match client::check("OffsetFetch partition", part.code, part.disposition) {
            Ok(()) => {},
            Err(e) => {
                proof {
                    client::lemma_refusal(codes, (i + 1) as nat, codes.len());
                }
                return Err(e);
            },
        }
        if part.offset >= 0 {
            map.insert(part.slot.topic.as_str(), part.slot.partition, part.offset);
        }
        i = i + 1;
    }
    Ok(map)
}

/// The topics of the first `n` members, in the order in which they first occur.
pub open spec fn wanted(members: Seq<group::Member>, n: nat) -> Seq<Seq<char>>
    decreases n,
{
    if n == 0 {
        Seq::empty()
    } else {
        wanted_by(wanted(members, (n - 1) as nat), members[n - 1].topics, members[n - 1].topics.len())
    }
}

/// A list of topics with those of another's first `n` that it does not have yet.
pub open spec fn wanted_by(list: Seq<Seq<char>>, topics: Seq<Seq<char>>, n: nat) -> Seq<Seq<char>>
    decreases n,
{
    if n == 0 {
        list
    } else {
        let earlier = wanted_by(list, topics, (n - 1) as nat);
        if earlier.contains(topics[n - 1]) {
            earlier
        } else {
            earlier.push(topics[n - 1])
        }
    }
}

/// The topics whose partition counts the leader must know, each once. The counts come
/// from metadata: a member only says which topics it wants.
pub fn topics_wanted(members: &Vec<Subscription>) -> (topics: Vec<String>)
    ensures
        names::names_of(topics@) == wanted(group::members_of(members@), members@.len()),
{
    let ghost all = group::members_of(members@);
    let mut topics: Vec<String> = Vec::new();
    assert(names::names_of(topics@) =~= Seq::empty());
    let mut m: usize = 0;
    while m < members.len()
        invariant
            m <= members@.len(),
            all == group::members_of(members@),
            names::names_of(topics@) == wanted(all, m as nat),
        decreases members@.len() - m,
    {
        let list = &members[m].topics;
        let ghost before = names::names_of(topics@);
        let ghost these = names::names_of(list@);
        assert(all[m as int].topics == these);
        let mut t: usize = 0;
        while t < list.len()
            invariant
                t <= list@.len(),
                these == names::names_of(list@),
                names::names_of(topics@) == wanted_by(before, these, t as nat),
            decreases list@.len() - t,
        {
            let ghost earlier = names::names_of(topics@);
            assert(these[t as int] == list@[t as int]@);
            if !names::has(topics.as_slice(), list[t].as_str()) {
                topics.push(list[t].clone());
                assert(names::names_of(topics@) =~= earlier.push(these[t as int]));
            }
            t = t + 1;
        }
        m = m + 1;
    }
    topics
}

/// However often a member that lost its partitions goes on before it is stable again,
/// it is told once.
pub proof fn law_a_revocation_is_announced_once<A>(
    before: Belonging<A>,
    lost: Seq<(Seq<char>, i32)>,
    still_lost: Seq<(Seq<char>, i32)>,
    moved: bool,
    moved_again: bool,
)
    ensures
        before.advanced(false, Seq::empty(), lost, moved).0.advanced(
            false,
            Seq::empty(),
            still_lost,
            moved_again,
        ).1 == Standing::InProgress,
{
}

/// A member that was never assigned anything is never told that it lost something.
pub proof fn law_the_first_join_revokes_nothing<A>(
    before: Belonging<A>,
    lost: Seq<(Seq<char>, i32)>,
    moved: bool,
)
    requires
        !before.ever_assigned,
    ensures
        before.advanced(false, Seq::empty(), lost, moved).1 == Standing::InProgress,
        !before.advanced(false, Seq::empty(), lost, moved).0.ever_assigned,
{
}

/// What a commit says of each partition: under its own topic and number the offset that is
/// to be committed, and no leader epoch.
pub proof fn law_a_commit_carries_each_offset(
    offsets: Map<(Seq<char>, i32), i64>,
    keys: Seq<(Seq<char>, i32)>,
    i: int,
)
    requires
        0 <= i < keys.len(),
    ensures
        ({
            let entries = offset_entries(offsets, keys, keys.len());
            &&& entries.len() == keys.len()
            &&& entries[i].0 == keys[i].0
            &&& entries[i].1.partition == keys[i].1
            &&& entries[i].1.offset == offsets[keys[i]]
            &&& entries[i].1.leader_epoch == -1
        }),
{
}

/// A coordinator that is not there yet, or still loading, is waited for: forty searches, a
/// quarter of a second apart. Any other error ends the search at once.
pub proof fn law_a_new_groups_coordinator_is_waited_for(
    attempt: usize,
    code: i16,
    disposition: Disposition,
)
    requires
        attempt < 40,
    ensures
        code == 0 ==> search_outcome(attempt, code, disposition) == retry::Outcome::Done,
        (code == 15 || code == 14) && attempt < 39 ==> search_outcome(attempt, code, disposition)
            == retry::Outcome::Again(250),
        (code == 15 || code == 14) && attempt == 39 ==> search_outcome(attempt, code, disposition)
            == retry::Outcome::Fail(250, "FindCoordinator"@, 15, Disposition::Retry),
        code != 0 && code != 15 && code != 14 ==> search_outcome(attempt, code, disposition)
            == retry::Outcome::Fail(0, "FindCoordinator"@, code, disposition),
        REBALANCE_IN_PROGRESS == 27,
{
}

/// A join is waited for longer than the coordinator waits for the group, by five seconds:
/// the broker decides that a rebalance failed, not the client.
pub proof fn law_a_join_outwaits_the_rebalance(rebalance_timeout_ms: i32)
    ensures
        rebalance_timeout_ms >= 0 ==> join_deadline(rebalance_timeout_ms) == rebalance_timeout_ms
            + 5000,
        rebalance_timeout_ms < 0 ==> join_deadline(rebalance_timeout_ms) == 305000,
{
}

/// Where membership stands after a step. A stable member has its assignment, and is owed
/// the news of its next loss. A member that was assigned something and is stable no more is
/// told once, and exactly, what it lost. A coordinator that moved is forgotten; nothing
/// else of the member changes.
pub proof fn law_a_member_is_told_what_it_has_and_lost<A>(
    before: Belonging<A>,
    assignment: Seq<(Seq<char>, i32)>,
    lost: Seq<(Seq<char>, i32)>,
    moved: bool,
)
    ensures
        before.advanced(true, assignment, lost, moved).1 == Standing::Assigned(assignment),
        before.advanced(true, assignment, lost, moved).0.ever_assigned,
        !before.advanced(true, assignment, lost, moved).0.announced_revoked,
        before.advanced(true, assignment, lost, moved).0.advanced(
            false,
            Seq::empty(),
            lost,
            moved,
        ).1 == Standing::Revoked(lost),
        before.ever_assigned && !before.announced_revoked ==> before.advanced(
            false,
            assignment,
            lost,
            moved,
        ).1 == Standing::Revoked(lost),
        !before.ever_assigned || before.announced_revoked ==> before.advanced(
            false,
            assignment,
            lost,
            moved,
        ).1 == Standing::InProgress,
        forall|stable: bool|
            {
                let after = #[trigger] before.advanced(stable, assignment, lost, moved).0;
                &&& after.coordinator == if moved {
                    None
                } else {
                    before.coordinator
                }
                &&& after.group_id == before.group_id
                &&& after.topics == before.topics
                &&& after.assignor == before.assignor
                &&& after.session_timeout_ms == before.session_timeout_ms
                &&& after.rebalance_timeout_ms == before.rebalance_timeout_ms
            },
{
}

/// Exactly the partitions are known that have a committed offset, zero or more; one that
/// was never committed is not.
pub proof fn law_exactly_the_committed_partitions_are_known(
    parts: Seq<CommittedPartition>,
    n: nat,
    slot: (Seq<char>, i32),
)
    requires
        n <= parts.len(),
    ensures
        committed_in(parts, n).dom().contains(slot) <==> exists|i: int|
            0 <= i < n && (#[trigger] parts[i]).slot@ == slot && parts[i].offset >= 0,
    decreases n,
{
    if n > 0 {
        law_exactly_the_committed_partitions_are_known(parts, (n - 1) as nat, slot);
        let earlier = committed_in(parts, (n - 1) as nat);
        let last = parts[n - 1];
        if earlier.dom().contains(slot) {
            let i = choose|i: int|
                0 <= i < n - 1 && (#[trigger] parts[i]).slot@ == slot && parts[i].offset >= 0;
            assert(0 <= i < n && parts[i].slot@ == slot && parts[i].offset >= 0);
        } else if last.slot@ == slot && last.offset >= 0 {
            assert(parts[n - 1].slot@ == slot);
        }
    }
}

/// What is known of a partition is what the coordinator said of it, offset zero too: the
/// last of what it said, where it named the partition more than once.
pub proof fn law_a_committed_offset_is_taken_as_it_is(
    parts: Seq<CommittedPartition>,
    n: nat,
    i: int,
)
    requires
        0 <= i < n <= parts.len(),
        parts[i].offset >= 0,
        forall|j: int|
            i < j < n ==> (#[trigger] parts[j]).slot@ != parts[i].slot@ || parts[j].offset < 0,
    ensures
        committed_in(parts, n).dom().contains(parts[i].slot@),
        committed_in(parts, n)[parts[i].slot@] == parts[i].offset,
    decreases n,
{
    if i < n - 1 {
        law_a_committed_offset_is_taken_as_it_is(parts, (n - 1) as nat, i);
        assert(parts[n - 1].slot@ != parts[i].slot@ || parts[n - 1].offset < 0);
    }
}

/// A leader knows every member: what each one wrote, in the order in which they joined, or
/// the first that cannot be read.
pub proof fn law_every_member_is_read(members: Seq<(String, Bytes)>, n: nat)
    requires
        n <= members.len(),
    ensures
        match members_in(members, n) {
            Ok(read) => read.len() == n && forall|i: int|
                #![trigger read[i]]
                #![trigger members[i]]
                0 <= i < n ==> blobs::member_in(members[i].0@, buffer::contents(members[i].1))
                    == Ok::<group::Member, Flaw>(read[i]),
            Err(e) => exists|i: int|
                #![trigger members[i]]
                0 <= i < n && blobs::member_in(members[i].0@, buffer::contents(members[i].1))
                    == Err::<group::Member, Flaw>(e) && forall|j: int|
                    0 <= j < i ==> blobs::member_in(
                        (#[trigger] members[j]).0@,
                        buffer::contents(members[j].1),
                    ) is Ok,
        },
    decreases n,
{
    if n > 0 {
        law_every_member_is_read(members, (n - 1) as nat);
        assert(members[n - 1] == members[n - 1]);
        if let Ok(earlier) = members_in(members, (n - 1) as nat) {
            if let Ok(read) = members_in(members, n) {
                assert forall|i: int|
                    #![trigger read[i]]
                    #![trigger members[i]]
                    0 <= i < n implies blobs::member_in(
                    members[i].0@,
                    buffer::contents(members[i].1),
                ) == Ok::<group::Member, Flaw>(read[i]) by {
                    if i < n - 1 {
                        assert(read[i] == earlier[i]);
                    }
                }
            } else {
                assert forall|j: int| 0 <= j < n - 1 implies blobs::member_in(
                    (#[trigger] members[j]).0@,
                    buffer::contents(members[j].1),
                ) is Ok by {
                    assert(earlier[j] == earlier[j]);
                }
            }
        }
    }
}

/// A leader asks for the partition counts of exactly the topics that some member wants,
/// each once.
pub proof fn law_exactly_the_wanted_topics_are_asked_for(
    members: Seq<group::Member>,
    n: nat,
    topic: Seq<char>,
)
    requires
        n <= members.len(),
    ensures
        wanted(members, n).no_duplicates(),
        wanted(members, n).contains(topic) <==> exists|i: int|
            0 <= i < n && (#[trigger] members[i]).topics.contains(topic),
    decreases n,
{
    if n > 0 {
        let earlier = wanted(members, (n - 1) as nat);
        let topics = members[n - 1].topics;
        law_exactly_the_wanted_topics_are_asked_for(members, (n - 1) as nat, topic);
        lemma_wanted_by(earlier, topics, topics.len(), topic);
        assert(topics.take(topics.len() as int) =~= topics);
        assert(members[n - 1] == members[n - 1]);
        if earlier.contains(topic) {
            let i = choose|i: int| 0 <= i < n - 1 && (#[trigger] members[i]).topics.contains(topic);
            assert(members[i].topics.contains(topic));
        }
    }
}

proof fn lemma_wanted_by(
    list: Seq<Seq<char>>,
    topics: Seq<Seq<char>>,
    n: nat,
    topic: Seq<char>,
)
    requires
        n <= topics.len(),
        list.no_duplicates(),
    ensures
        wanted_by(list, topics, n).no_duplicates(),
        wanted_by(list, topics, n).contains(topic) <==> list.contains(topic) || topics.take(
            n as int,
        ).contains(topic),
    decreases n,
{
    if n > 0 {
        lemma_wanted_by(list, topics, (n - 1) as nat, topic);
        let earlier = wanted_by(list, topics, (n - 1) as nat);
        let now = wanted_by(list, topics, n);
        let before = topics.take(n - 1);
        let upto = topics.take(n as int);
        assert(upto[n - 1] == topics[n - 1]);
        if before.contains(topic) {
            let i = choose|i: int| 0 <= i < before.len() && before[i] == topic;
            assert(upto[i] == topic);
        }
        if upto.contains(topic) && topic != topics[n - 1] {
            let i = choose|i: int| 0 <= i < upto.len() && upto[i] == topic;
            assert(before[i] == topic);
        }
        if !earlier.contains(topics[n - 1]) {
            assert(now == earlier.push(topics[n - 1]));
            assert(now[earlier.len() as int] == topics[n - 1]);
            if earlier.contains(topic) {
                let i = choose|i: int| 0 <= i < earlier.len() && earlier[i] == topic;
                assert(now[i] == topic);
            }
        }
    } else {
        assert(!topics.take(0).contains(topic));
    }
}

} // verus!
