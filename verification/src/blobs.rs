//! The messages that a group's members exchange through the coordinator.
//!
//! They are opaque to the broker: a two-byte version, then a body in a format that the
//! members agree on, which is why members of different clients can share a group.
use crate::buffer;
use crate::client::{Error, Fault};
use crate::codec;
use crate::error;
use crate::error::{CodecFault, Flaw};
use crate::group;
use crate::group::{Subscription, TopicPartition};
use crate::grouping;
use crate::names;
use crate::slots;
use crate::wire;
use bytes::{Bytes, BytesMut};
use kafka_protocol::messages::consumer_protocol_assignment::TopicPartition as AssignedTopic;
use kafka_protocol::messages::consumer_protocol_subscription::TopicPartition as OwnedTopic;
use kafka_protocol::messages::{
    ConsumerProtocolAssignment, ConsumerProtocolSubscription, TopicName,
};
use kafka_protocol::protocol::{Decodable, Encodable, StrBytes};
use vstd::prelude::*;
use vstd::slice::slice_subrange;

verus! {

/// The version that this client writes: the first that carries a generation. Without
/// one a leader cannot tell a live ownership claim from a stale one.
pub const PROTOCOL_VERSION: i16 = 2;

/// The body of a subscription.
#[derive(Debug)]
pub struct SubscriptionBody {
    pub topics: Vec<String>,
    /// The owned partitions by topic.
    pub owned: Vec<(String, Vec<i32>)>,
    pub generation: i32,
}

/// What a [`SubscriptionBody`] stands for.
pub ghost struct Claim {
    pub topics: Seq<Seq<char>>,
    pub owned: Seq<(Seq<char>, Seq<i32>)>,
    pub generation: i32,
}

impl View for SubscriptionBody {
    type V = Claim;

    open spec fn view(&self) -> Claim {
        Claim {
            topics: names::names_of(self.topics@),
            owned: grouping::group_views(self.owned@),
            generation: self.generation,
        }
    }
}

/// Whether names and lists are short enough for the wire format.
pub open spec fn names_fit(names: Seq<Seq<char>>) -> bool {
    &&& names.len() <= i32::MAX
    &&& forall|i: int|
        0 <= i < names.len() ==> names::utf8(#[trigger] names[i]).len() <= i16::MAX
}

/// Whether partitions by topic are short enough for the wire format.
pub open spec fn topics_fit(topics: Seq<(Seq<char>, Seq<i32>)>) -> bool {
    &&& topics.len() <= i32::MAX
    &&& forall|i: int|
        0 <= i < topics.len() ==> names::utf8((#[trigger] topics[i]).0).len() <= i16::MAX
            && topics[i].1.len() <= i32::MAX
}

/// What `<ConsumerProtocolSubscription as Decodable>::decode` of `kafka_protocol` reads
/// in these bytes at this version, or what it says is wrong with them.
pub uninterp spec fn subscription_in(bytes: Seq<u8>, version: i16) -> Result<Claim, Seq<char>>;

/// What `<ConsumerProtocolSubscription as Encodable>::encode` of `kafka_protocol` writes
/// at this version, with no user data and no rack, or what it says where it refuses.
pub uninterp spec fn subscription_bytes(claim: Claim, version: i16) -> Result<
    Seq<u8>,
    Seq<char>,
>;

/// What `<ConsumerProtocolAssignment as Decodable>::decode` of `kafka_protocol` reads in
/// these bytes at this version, or what it says is wrong with them.
pub uninterp spec fn assignment_in(bytes: Seq<u8>, version: i16) -> Result<
    Seq<(Seq<char>, Seq<i32>)>,
    Seq<char>,
>;

/// What `<ConsumerProtocolAssignment as Encodable>::encode` of `kafka_protocol` writes at
/// this version, with no user data, or what it says where it refuses.
pub uninterp spec fn assignment_bytes(
    topics: Seq<(Seq<char>, Seq<i32>)>,
    version: i16,
) -> Result<Seq<u8>, Seq<char>>;

/// What a subscription's body, or the text of why there is none, stands for.
pub open spec fn claim_or_text(body: Result<SubscriptionBody, String>) -> Result<
    Claim,
    Seq<char>,
> {
    match body {
        Ok(b) => Ok(b@),
        Err(said) => Err(said@),
    }
}

/// What partitions by topic, or the text of why there are none, stand for.
pub open spec fn topics_or_text(topics: Result<Vec<(String, Vec<i32>)>, String>) -> Result<
    Seq<(Seq<char>, Seq<i32>)>,
    Seq<char>,
> {
    match topics {
        Ok(t) => Ok(grouping::group_views(t@)),
        Err(said) => Err(said@),
    }
}

/// `<kafka_protocol::messages::ConsumerProtocolSubscription as Encodable>::encode`, with
/// no user data and no rack. What it writes, or says where it refuses, is named. Beside that: at versions 2 and 3
/// it accepts whatever is short enough for the format, and what it writes decodes to
/// what was encoded.
#[verifier::external_body]
fn write_subscription(body: &SubscriptionBody, version: i16) -> (bytes: Result<Vec<u8>, String>)
    ensures
        codec::bytes_or_text(bytes) == subscription_bytes(body@, version),
        2 <= version <= 3 && names_fit(body@.topics) && topics_fit(body@.owned) ==> bytes is Ok,
        2 <= version <= 3 ==> (bytes matches Ok(b) ==> subscription_in(b@, version) == Ok::<
            Claim,
            Seq<char>,
        >(body@)),
{
    let mut out = ConsumerProtocolSubscription::default();
    out.topics = body.topics.iter().map(|t| StrBytes::from_string(t.clone())).collect();
    out.generation_id = body.generation;
    out.owned_partitions = body.owned.iter().map(|(topic, partitions)| OwnedTopic::default()
        .with_topic(TopicName(StrBytes::from_string(topic.clone())))
        .with_partitions(partitions.clone())).collect();
    let mut buf = BytesMut::new();
    out.encode(&mut buf, version).map(|()| buf.to_vec()).map_err(|e| e.to_string())
}

/// `<kafka_protocol::messages::ConsumerProtocolSubscription as Decodable>::decode`. What
/// it reads, or says is wrong, is named. It reserves room for as many entries as the bytes announce before it
/// reads them.
#[verifier::external_body]
fn read_subscription(bytes: &[u8], version: i16) -> (body: Result<SubscriptionBody, String>)
    ensures
        claim_or_text(body) == subscription_in(bytes@, version),
{
    let mut buf = Bytes::copy_from_slice(bytes);
    ConsumerProtocolSubscription::decode(&mut buf, version).map(|body| SubscriptionBody {
        topics: body.topics.iter().map(|t| t.to_string()).collect(),
        owned: body.owned_partitions.into_iter()
            .map(|tp| (tp.topic.0.to_string(), tp.partitions)).collect(),
        generation: body.generation_id,
    }).map_err(|e| e.to_string())
}

/// `<kafka_protocol::messages::ConsumerProtocolAssignment as Encodable>::encode`, with no
/// user data. What it writes, or says where it refuses, is named. Beside that: at versions 0 to 3 it accepts
/// whatever is short enough for the format, and what it writes decodes to what was
/// encoded.
#[verifier::external_body]
fn write_assignment(topics: &Vec<(String, Vec<i32>)>, version: i16) -> (bytes: Result<
    Vec<u8>,
    String,
>)
    ensures
        codec::bytes_or_text(bytes) == assignment_bytes(grouping::group_views(topics@), version),
        0 <= version <= 3 && topics_fit(grouping::group_views(topics@)) ==> bytes is Ok,
        0 <= version <= 3 ==> (bytes matches Ok(b) ==> assignment_in(b@, version) == Ok::<
            Seq<(Seq<char>, Seq<i32>)>,
            Seq<char>,
        >(grouping::group_views(topics@))),
{
    let mut out = ConsumerProtocolAssignment::default();
    out.assigned_partitions = topics.iter().map(|(topic, partitions)| AssignedTopic::default()
        .with_topic(TopicName(StrBytes::from_string(topic.clone())))
        .with_partitions(partitions.clone())).collect();
    let mut buf = BytesMut::new();
    out.encode(&mut buf, version).map(|()| buf.to_vec()).map_err(|e| e.to_string())
}

/// `<kafka_protocol::messages::ConsumerProtocolAssignment as Decodable>::decode`. What it
/// reads, or says is wrong, is named. It reserves room for as many entries as the bytes announce before it
/// reads them.
#[verifier::external_body]
fn read_assignment(bytes: &[u8], version: i16) -> (topics: Result<
    Vec<(String, Vec<i32>)>,
    String,
>)
    ensures
        topics_or_text(topics) == assignment_in(bytes@, version),
{
    let mut buf = Bytes::copy_from_slice(bytes);
    ConsumerProtocolAssignment::decode(&mut buf, version).map(|body| body.assigned_partitions
        .into_iter().map(|tp| (tp.topic.0.to_string(), tp.partitions)).collect())
        .map_err(|e| e.to_string())
}

/// The version at the head of a message.
pub fn read_version(message: &[u8]) -> (version: Result<i16, Error>)
    ensures
        if message@.len() < 2 {
            version is Err && version->Err_0@ == Fault::Core(Flaw::Version)
        } else {
            version matches Ok(v) && v == wire::i16_of(message@, 0)
        },
{
    match wire::i16_at(message, 0) {
        Some(version) => Ok(version),
        None => Err(Error::Core(error::Error::Codec(CodecFault::Version))),
    }
}

/// Puts the version ahead of a body. It is not part of the body, and without it every
/// member would read the message shifted by two bytes.
fn with_version(body: Result<Vec<u8>, CodecFault>) -> (message: Result<Bytes, Error>)
    ensures
        encodes(message, codec::bytes_of(body)),
        message matches Ok(b) ==> body is Ok && wire::i16_of(buffer::contents(b), 0)
            == PROTOCOL_VERSION && buffer::contents(b).len() >= 2 && buffer::contents(b).skip(2)
            == body->Ok_0@,
{
    match body {
        Err(e) => Err(Error::Core(error::Error::Codec(e))),
        Ok(mut rest) => {
            let mut out: Vec<u8> = Vec::new();
            out.push(0);
            out.push(2);
            let ghost tail = rest@;
            out.append(&mut rest);
            assert(out@ =~= seq![0u8, 2u8] + tail);
            assert(out@.skip(2) =~= tail);
            assert(wire::be_unsigned(out@, 0, 2) == 2) by {
                reveal_with_fuel(wire::be_unsigned, 3);
            }
            Ok(buffer::from_vec(out))
        },
    }
}

/// Puts partitions under their topics.
pub fn topics_of(partitions: &Vec<TopicPartition>) -> (topics: Vec<(String, Vec<i32>)>)
    ensures
        grouping::groups_of(group::slots_of(partitions@), grouping::group_views(topics@)),
{
    let ghost all = group::slots_of(partitions@);
    let mut entries: Vec<(String, i32)> = Vec::new();
    let mut i: usize = 0;
    while i < partitions.len()
        invariant
            i <= partitions@.len(),
            entries@.len() == i,
            forall|k: int|
                0 <= k < i ==> ((#[trigger] entries@[k]).0@, entries@[k].1) == partitions@[k]@,
        decreases partitions@.len() - i,
    {
        entries.push((partitions[i].topic.clone(), partitions[i].partition));
        i = i + 1;
    }
    assert(grouping::entry_views(entries@) =~= all);
    grouping::grouped(entries)
}

/// Takes partitions out of their topics.
fn flattened(topics: Vec<(String, Vec<i32>)>) -> (partitions: Vec<TopicPartition>)
    ensures
        group::slots_of(partitions@) == grouping::flat(
            grouping::group_views(topics@),
            topics@.len(),
        ),
{
    let ghost groups = grouping::group_views(topics@);
    let mut partitions: Vec<TopicPartition> = Vec::new();
    assert(group::slots_of(partitions@) =~= Seq::empty());
    let mut g: usize = 0;
    while g < topics.len()
        invariant
            g <= topics@.len(),
            groups == grouping::group_views(topics@),
            group::slots_of(partitions@) == grouping::flat(groups, g as nat),
        decreases topics@.len() - g,
    {
        let topic = topics[g].0.as_str();
        let list = &topics[g].1;
        let ghost before = group::slots_of(partitions@);
        let ghost these = grouping::named(topic@, list@);
        assert(groups[g as int] == (topic@, list@));
        let mut k: usize = 0;
        assert(before + these.take(0) =~= before);
        while k < list.len()
            invariant
                k <= list@.len(),
                these == grouping::named(topic@, list@),
                group::slots_of(partitions@) == before + these.take(k as int),
            decreases list@.len() - k,
        {
            let ghost earlier = partitions@;
            partitions.push(TopicPartition::new(topic, list[k]));
            assert(group::slots_of(partitions@) =~= group::slots_of(earlier).push(
                these[k as int],
            ));
            assert(before + these.take(k + 1) =~= (before + these.take(k as int)).push(
                these[k as int],
            ));
            k = k + 1;
        }
        assert(these.take(these.len() as int) =~= these);
        g = g + 1;
    }
    partitions
}

/// Encodes a member's subscription.
pub fn encode_subscription(subscription: &Subscription) -> (message: Result<Bytes, Error>)
    ensures
        exists|owned: Seq<(Seq<char>, Seq<i32>)>| #[trigger]
            grouping::groups_of(subscription@.owned, owned) && writes_claim(
                message,
                Claim {
                    topics: subscription@.topics,
                    owned,
                    generation: subscription@.generation,
                },
            ),
{
    let mut topics: Vec<String> = Vec::new();
    let mut i: usize = 0;
    while i < subscription.topics.len()
        invariant
            i <= subscription.topics@.len(),
            topics@.len() == i,
            forall|k: int| 0 <= k < i ==> (#[trigger] topics@[k])@ == subscription.topics@[k]@,
        decreases subscription.topics@.len() - i,
    {
        topics.push(subscription.topics[i].clone());
        i = i + 1;
    }
    let body = SubscriptionBody {
        topics,
        owned: topics_of(&subscription.owned),
        generation: subscription.generation,
    };
    proof {
        assert(body@.topics =~= subscription@.topics);
        assert(grouping::groups_of(subscription@.owned, body@.owned));
    }
    with_version(
        match write_subscription(&body, PROTOCOL_VERSION) {
            Ok(bytes) => Ok(bytes),
            Err(said) => Err(CodecFault::Subscription(said)),
        },
    )
}

/// Whether a message is this claim: written wherever it is short enough, and reading
/// it gives the claim back.
pub open spec fn writes_claim(message: Result<Bytes, Error>, claim: Claim) -> bool {
    &&& encodes(message, subscription_written(claim))
    &&& names_fit(claim.topics) && topics_fit(claim.owned) ==> message is Ok
    &&& message matches Ok(b) ==> {
        let s = buffer::contents(b);
        &&& s.len() >= 2
        &&& wire::i16_of(s, 0) == PROTOCOL_VERSION
        &&& subscription_in(s.skip(2), PROTOCOL_VERSION) == Ok::<Claim, Seq<char>>(claim)
    }
}

/// Whether a message is these partitions by topic: written wherever they are short
/// enough, and reading it gives them back.
pub open spec fn writes_topics(
    message: Result<Bytes, Error>,
    topics: Seq<(Seq<char>, Seq<i32>)>,
) -> bool {
    &&& encodes(message, assignment_written(topics))
    &&& topics_fit(topics) ==> message is Ok
    &&& message matches Ok(b) ==> {
        let s = buffer::contents(b);
        &&& s.len() >= 2
        &&& wire::i16_of(s, 0) == PROTOCOL_VERSION
        &&& assignment_in(s.skip(2), PROTOCOL_VERSION) == Ok::<
            Seq<(Seq<char>, Seq<i32>)>,
            Seq<char>,
        >(topics)
    }
}

/// The body of a subscription, or why it cannot be written.
pub open spec fn subscription_written(claim: Claim) -> Result<Seq<u8>, Flaw> {
    match subscription_bytes(claim, PROTOCOL_VERSION) {
        Ok(b) => Ok(b),
        Err(said) => Err(Flaw::Subscription(said)),
    }
}

/// The body of an assignment, or why it cannot be written.
pub open spec fn assignment_written(topics: Seq<(Seq<char>, Seq<i32>)>) -> Result<
    Seq<u8>,
    Flaw,
> {
    match assignment_bytes(topics, PROTOCOL_VERSION) {
        Ok(b) => Ok(b),
        Err(said) => Err(Flaw::Assignment(said)),
    }
}

/// Whether a message is this body behind its version, or refused for the reason that there
/// is none.
pub open spec fn encodes(message: Result<Bytes, Error>, body: Result<Seq<u8>, Flaw>) -> bool {
    match body {
        Ok(s) => message matches Ok(b) && buffer::contents(b) == seq![0u8, 2u8] + s,
        Err(e) => message is Err && message->Err_0@ == Fault::Core(e),
    }
}

/// What a message says of a member, or what is wrong with it. A version that cannot carry a
/// generation gives -1, which marks a claim as stale rather than trusted.
pub open spec fn member_in(member_id: Seq<char>, message: Seq<u8>) -> Result<
    group::Member,
    Flaw,
> {
    if message.len() < 2 {
        Err(Flaw::Version)
    } else {
        let version = wire::i16_of(message, 0);
        match subscription_in(message.skip(2), version) {
            Err(said) => Err(Flaw::Subscription(said)),
            Ok(claim) => Ok(member_with(member_id, version, claim)),
        }
    }
}

/// What a message assigns, by topic, or what is wrong with it.
pub open spec fn topics_in(message: Seq<u8>) -> Result<Seq<(Seq<char>, Seq<i32>)>, Flaw> {
    if message.len() < 2 {
        Err(Flaw::Version)
    } else {
        match assignment_in(message.skip(2), wire::i16_of(message, 0)) {
            Err(said) => Err(Flaw::Assignment(said)),
            Ok(topics) => Ok(topics),
        }
    }
}

pub open spec fn member_with(member_id: Seq<char>, version: i16, claim: Claim) -> group::Member {
    group::Member {
        id: member_id,
        topics: claim.topics,
        owned: grouping::flat(claim.owned, claim.owned.len()),
        generation: if version >= 2 {
            claim.generation
        } else {
            (-1) as i32
        },
    }
}

/// Takes what was read of a subscription for the member that sent it.
pub fn subscription_from(member_id: &str, version: i16, body: SubscriptionBody) -> (subscription:
    Subscription)
    ensures
        subscription@ == member_with(member_id@, version, body@),
{
    Subscription {
        member_id: member_id.to_owned(),
        generation: if version >= 2 {
            body.generation
        } else {
            -1
        },
        topics: body.topics,
        owned: flattened(body.owned),
    }
}

/// Decodes a member's subscription.
pub fn decode_subscription(member_id: &str, message: &Bytes) -> (subscription: Result<
    Subscription,
    Error,
>)
    ensures
        match member_in(member_id@, buffer::contents(*message)) {
            Ok(member) => subscription matches Ok(s) && s@ == member,
            Err(e) => subscription is Err && subscription->Err_0@ == Fault::Core(e),
        },
{
    let bytes = buffer::as_slice(message);
    let version: i16 = match read_version(bytes) {
        Ok(version) => version,
        Err(e) => {
            return Err(e);
        },
    };
    let rest = slice_subrange(bytes, 2, bytes.len());
    assert(rest@ =~= bytes@.skip(2));
    match read_subscription(rest, version) {
        Ok(body) => Ok(subscription_from(member_id, version, body)),
        Err(said) => Err(Error::Core(error::Error::Codec(CodecFault::Subscription(said)))),
    }
}

/// Encodes the partitions that a member is assigned.
pub fn encode_assignment(partitions: &Vec<TopicPartition>) -> (message: Result<Bytes, Error>)
    ensures
        exists|topics: Seq<(Seq<char>, Seq<i32>)>| #[trigger]
            grouping::groups_of(group::slots_of(partitions@), topics) && writes_topics(
                message,
                topics,
            ),
{
    let topics = topics_of(partitions);
    assert(grouping::groups_of(group::slots_of(partitions@), grouping::group_views(topics@)));
    with_version(
        match write_assignment(&topics, PROTOCOL_VERSION) {
            Ok(bytes) => Ok(bytes),
            Err(said) => Err(CodecFault::Assignment(said)),
        },
    )
}

/// Whether a list holds exactly the partitions of these topics, in order.
pub open spec fn lists(partitions: Seq<(Seq<char>, i32)>, topics: Seq<(Seq<char>, Seq<i32>)>) -> bool {
    &&& slots::in_slot_order(partitions)
    &&& partitions.to_multiset() == grouping::flat(topics, topics.len()).to_multiset()
}

/// Takes what was read of an assignment: its partitions in order.
pub fn assignment_from(topics: Vec<(String, Vec<i32>)>) -> (partitions: Vec<TopicPartition>)
    ensures
        lists(group::slots_of(partitions@), grouping::group_views(topics@)),
{
    slots::sorted(flattened(topics))
}

/// Decodes an assignment. An empty one is an answer, not an error.
pub fn decode_assignment(message: &Bytes) -> (partitions: Result<Vec<TopicPartition>, Error>)
    ensures
        match topics_in(buffer::contents(*message)) {
            Ok(topics) => partitions matches Ok(p) && lists(group::slots_of(p@), topics),
            Err(e) => partitions is Err && partitions->Err_0@ == Fault::Core(e),
        },
{
    let bytes = buffer::as_slice(message);
    let version: i16 = match read_version(bytes) {
        Ok(version) => version,
        Err(e) => {
            return Err(e);
        },
    };
    let rest = slice_subrange(bytes, 2, bytes.len());
    assert(rest@ =~= bytes@.skip(2));
    match read_assignment(rest, version) {
        Ok(topics) => Ok(assignment_from(topics)),
        Err(said) => Err(Error::Core(error::Error::Codec(CodecFault::Assignment(said)))),
    }
}

/// An assignment that a leader encodes is what the member decodes: the same partitions,
/// in order, and the very same list where it was in order.
pub proof fn law_an_assignment_round_trips(
    partitions: Seq<(Seq<char>, i32)>,
    topics: Seq<(Seq<char>, Seq<i32>)>,
    decoded: Seq<(Seq<char>, i32)>,
)
    requires
        grouping::groups_of(partitions, topics),
        lists(decoded, topics),
    ensures
        slots::in_slot_order(decoded),
        decoded.to_multiset() == partitions.to_multiset(),
        slots::in_slot_order(partitions) ==> decoded == partitions,
{
    grouping::law_grouping_keeps_everything(partitions, topics);
    if slots::in_slot_order(partitions) {
        slots::lemma_one_order(decoded, partitions);
    }
}

/// A subscription that a member encodes is what the leader decodes: its topics, its
/// generation, and the partitions it owns; the very same subscription where the partitions
/// stand together by topic, the topics ascending. It is written in the version that
/// carries a generation.
pub proof fn law_a_subscription_round_trips(
    member: group::Member,
    owned: Seq<(Seq<char>, Seq<i32>)>,
    message: Bytes,
)
    requires
        grouping::groups_of(member.owned, owned),
        writes_claim(
            Ok(message),
            (Claim { topics: member.topics, owned, generation: member.generation }),
        ),
    ensures
        buffer::contents(message).take(2) == seq![0u8, 2u8],
        member_in(member.id, buffer::contents(message)) matches Ok(read) && read.id == member.id
            && read.topics == member.topics && read.generation == member.generation
            && read.owned.to_multiset() == member.owned.to_multiset(),
        grouping::names_ascend(member.owned) ==> member_in(member.id, buffer::contents(message))
            == Ok::<group::Member, Flaw>(member),
{
    grouping::law_grouping_keeps_everything(member.owned, owned);
    if grouping::names_ascend(member.owned) {
        grouping::law_grouping_keeps_the_order(member.owned, owned);
    }
}

/// A message too short for its version says nothing of a member, and one of a version
/// below the one that carries a generation gives -1 for it.
pub proof fn law_an_old_subscription_has_no_generation(member_id: Seq<char>, message: Seq<u8>)
    ensures
        message.len() < 2 ==> member_in(member_id, message) == Err::<group::Member, Flaw>(
            Flaw::Version,
        ),
        message.len() >= 2 && wire::i16_of(message, 0) < PROTOCOL_VERSION ==> (member_in(
            member_id,
            message,
        ) matches Ok(read) ==> read.generation == -1),
{
}

/// What a member says of itself is taken as it is, in every version that carries a
/// generation: its topics, the partitions that it owns, and the generation of its claim.
pub proof fn law_a_claim_is_taken_as_it_is(member_id: Seq<char>, version: i16, claim: Claim)
    ensures
        ({
            let member = member_with(member_id, version, claim);
            &&& member.id == member_id
            &&& member.topics == claim.topics
            &&& member.owned == grouping::flat(claim.owned, claim.owned.len())
            &&& version >= 2 ==> member.generation == claim.generation
            &&& version < 2 ==> member.generation == -1
        }),
{
}

/// A message is read in the version that stands in its first two bytes, from the third byte
/// on; what cannot be read is told as what it is.
pub proof fn law_a_message_is_read_in_its_own_version(member_id: Seq<char>, message: Seq<u8>)
    requires
        message.len() >= 2,
    ensures
        ({
            let version = wire::i16_of(message, 0);
            let body = message.subrange(2, message.len() as int);
            &&& assignment_in(body, version) matches Ok(topics) ==> topics_in(message) == Ok::<
                Seq<(Seq<char>, Seq<i32>)>,
                Flaw,
            >(topics)
            &&& assignment_in(body, version) matches Err(said) ==> topics_in(message) == Err::<
                Seq<(Seq<char>, Seq<i32>)>,
                Flaw,
            >(Flaw::Assignment(said))
            &&& subscription_in(body, version) matches Ok(claim) ==> (member_in(member_id, message)
                matches Ok(member) && member.topics == claim.topics)
            &&& subscription_in(body, version) matches Err(said) ==> member_in(member_id, message)
                == Err::<group::Member, Flaw>(Flaw::Subscription(said))
        }),
{
    assert(message.subrange(2, message.len() as int) =~= message.skip(2));
}

} // verus!
