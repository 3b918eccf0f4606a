//! How the sticky strategies decide: what everyone keeps of what it holds, who is given the
//! rest, and how the result is evened out.
use crate::assignor;
use crate::group;
use crate::group::{Member, Subscription, TopicPartition};
use crate::names;
use vstd::prelude::*;

verus! {

/// The highest generation among the first `n` members, -1 for none.
pub open spec fn highest_generation(members: Seq<Member>, n: nat) -> int
    decreases n,
{
    if n == 0 {
        -1
    } else {
        let earlier = highest_generation(members, (n - 1) as nat);
        if n == 1 || members[n - 1].generation > earlier {
            members[n - 1].generation as int
        } else {
            earlier
        }
    }
}

/// The last of the first `n` members with this id.
pub open spec fn last_with_id(members: Seq<Member>, id: Seq<char>, n: nat) -> Option<Member>
    decreases n,
{
    if n == 0 {
        None
    } else if members[n - 1].id == id {
        Some(members[n - 1])
    } else {
        last_with_id(members, id, (n - 1) as nat)
    }
}

/// The ownership claims of a member that are worth believing: none if it reports a
/// generation below the highest in the group, for then it has been away.
pub open spec fn live_claims_of(members: Seq<Member>, id: Seq<char>) -> Seq<(Seq<char>, i32)> {
    let highest = highest_generation(members, members.len());
    match last_with_id(members, id, members.len()) {
        None => Seq::empty(),
        Some(m) => if m.generation >= highest && highest >= 0 {
            m.owned
        } else {
            Seq::empty()
        },
    }
}

/// The ownership claims of a member that are worth believing. Believing a claim from
/// an older generation is how one partition ends up with two members.
pub fn live_claims<'a>(members: &'a [Subscription], id: &str) -> (claims: Option<
    &'a Vec<TopicPartition>,
>)
    ensures
        live_claims_of(group::members_of(members@), id@) == match claims {
            Some(v) => group::slots_of(v@),
            None => Seq::<(Seq<char>, i32)>::empty(),
        },
{
    let ghost views = group::members_of(members@);
    let mut highest: i32 = -1;
    let mut i: usize = 0;
    while i < members.len()
        invariant
            views == group::members_of(members@),
            i <= members@.len(),
            highest == highest_generation(views, i as nat),
        decreases members@.len() - i,
    {
        assert(views[i as int] == members@[i as int]@);
        if i == 0 || members[i].generation > highest {
            highest = members[i].generation;
        }
        i = i + 1;
    }
    let mut n: usize = members.len();
    while n > 0
        invariant
            views == group::members_of(members@),
            n <= members@.len(),
            highest == highest_generation(views, views.len()),
            last_with_id(views, id@, views.len()) == last_with_id(views, id@, n as nat),
        decreases n,
    {
        assert(views[n - 1] == members@[n - 1]@);
        let member = &members[n - 1];
        if names::same(member.member_id.as_str(), id) {
            if member.generation >= highest && highest >= 0 {
                return Some(&member.owned);
            }
            return None;
        }
        n = n - 1;
    }
    None
}

/// How many of the first `n` partitions a topic list wants.
pub open spec fn wanted_count(
    all: Seq<(Seq<char>, i32)>,
    member: Member,
    n: nat,
) -> nat
    decreases n,
{
    if n == 0 {
        0
    } else {
        wanted_count(all, member, (n - 1) as nat) + (if group::wants(member, all[n - 1].0) {
            1nat
        } else {
            0
        })
    }
}

/// Whether two members want a topic in common.
pub open spec fn shares_a_topic(a: Member, b: Member) -> bool {
    exists|t: int| 0 <= t < a.topics.len() && group::wants(b, #[trigger] a.topics[t])
}

/// How many of the first `n` members want a topic in common with `member`.
pub open spec fn sharer_count(sorted: Seq<Member>, member: Member, n: nat) -> nat
    decreases n,
{
    if n == 0 {
        0
    } else {
        sharer_count(sorted, member, (n - 1) as nat) + (if shares_a_topic(
            sorted[n - 1],
            member,
        ) {
            1nat
        } else {
            0
        })
    }
}

/// Among how many members the partitions that the member at place `k` wants are shared out.
pub open spec fn sharers(sorted: Seq<Member>, k: int) -> int {
    let count = sharer_count(sorted, sorted[k], sorted.len()) as int;
    if count > 1 {
        count
    } else {
        1
    }
}

/// The fair share of the member at place `k`: the partitions it wants, divided evenly among
/// those that want a topic in common with it.
pub open spec fn fair_share(all: Seq<(Seq<char>, i32)>, sorted: Seq<Member>, k: int) -> int {
    wanted_count(all, sorted[k], all.len()) as int / sharers(sorted, k)
}

/// How many partitions that division leaves over: as many members may have one more than
/// their fair share.
pub open spec fn left_over(all: Seq<(Seq<char>, i32)>, sorted: Seq<Member>, k: int) -> int {
    wanted_count(all, sorted[k], all.len()) as int % sharers(sorted, k)
}

/// How many of the first `n` members that want a topic in common with the one at place `k`
/// hold more than their fair share.
pub open spec fn larger_shares(
    all: Seq<(Seq<char>, i32)>,
    sorted: Seq<Member>,
    owners: Seq<Option<int>>,
    k: int,
    n: nat,
) -> nat
    decreases n,
{
    if n == 0 {
        0
    } else {
        larger_shares(all, sorted, owners, k, (n - 1) as nat) + (if shares_a_topic(
            sorted[n - 1],
            sorted[k],
        ) && held(owners, sorted, sorted[n - 1].id, all.len()) > fair_share(all, sorted, n - 1) {
            1nat
        } else {
            0
        })
    }
}

/// How many partitions the member at place `k` may keep when those ahead of it have kept
/// theirs: its fair share, and one more while the members ahead of it have not used up what
/// is left over.
pub open spec fn quota(
    all: Seq<(Seq<char>, i32)>,
    sorted: Seq<Member>,
    owners: Seq<Option<int>>,
    k: int,
) -> int {
    fair_share(all, sorted, k) + (if larger_shares(all, sorted, owners, k, k as nat) < left_over(
        all,
        sorted,
        k,
    ) {
        1int
    } else {
        0
    })
}

/// How many of the first `n` partitions the members with this id own.
pub open spec fn held(
    owners: Seq<Option<int>>,
    sorted: Seq<Member>,
    id: Seq<char>,
    n: nat,
) -> nat
    decreases n,
{
    if n == 0 {
        0
    } else {
        held(owners, sorted, id, (n - 1) as nat) + (match owners[n - 1] {
            Some(k) => if sorted[k].id == id {
                1nat
            } else {
                0
            },
            None => 0,
        })
    }
}

/// The place of a partition among the first `n`, `None` where it is not there.
pub open spec fn slot_index(
    all: Seq<(Seq<char>, i32)>,
    slot: (Seq<char>, i32),
    n: nat,
) -> Option<int>
    decreases n,
{
    if n == 0 {
        None
    } else if all[n - 1] == slot {
        Some(n - 1)
    } else {
        slot_index(all, slot, (n - 1) as nat)
    }
}

/// The owners after the member at place `k` has kept what it may of its first `n`
/// claims: each while it holds less than it may keep, if the partition exists, is
/// nobody's yet and of a topic that the member wants.
pub open spec fn keep(
    all: Seq<(Seq<char>, i32)>,
    sorted: Seq<Member>,
    owners: Seq<Option<int>>,
    k: int,
    claims: Seq<(Seq<char>, i32)>,
    n: nat,
) -> Seq<Option<int>>
    decreases n,
{
    if n == 0 {
        owners
    } else {
        let so_far = keep(all, sorted, owners, k, claims, (n - 1) as nat);
        if held(so_far, sorted, sorted[k].id, all.len()) >= quota(all, sorted, owners, k) {
            so_far
        } else {
            match slot_index(all, claims[n - 1], all.len()) {
                Some(i) => if so_far[i] is None && group::wants(sorted[k], claims[n - 1].0) {
                    so_far.update(i, Some(k))
                } else {
                    so_far
                },
                None => so_far,
            }
        }
    }
}

/// The owners after the first `n` members have kept what they may.
pub open spec fn kept(
    all: Seq<(Seq<char>, i32)>,
    sorted: Seq<Member>,
    members: Seq<Member>,
    n: nat,
) -> Seq<Option<int>>
    decreases n,
{
    if n == 0 {
        Seq::new(all.len(), |i: int| None)
    } else {
        let claims = live_claims_of(members, sorted[n - 1].id);
        keep(
            all,
            sorted,
            kept(all, sorted, members, (n - 1) as nat),
            n - 1,
            claims,
            claims.len(),
        )
    }
}

/// Of the first `n` members that want a topic, the first of those that hold fewest.
pub open spec fn fewest(
    all: Seq<(Seq<char>, i32)>,
    sorted: Seq<Member>,
    owners: Seq<Option<int>>,
    topic: Seq<char>,
    n: nat,
) -> Option<int>
    decreases n,
{
    if n == 0 {
        None
    } else {
        let best = fewest(all, sorted, owners, topic, (n - 1) as nat);
        if !group::wants(sorted[n - 1], topic) {
            best
        } else {
            match best {
                None => Some(n - 1),
                Some(b) => if held(owners, sorted, sorted[n - 1].id, all.len()) < held(
                    owners,
                    sorted,
                    sorted[b].id,
                    all.len(),
                ) {
                    Some(n - 1)
                } else {
                    best
                },
            }
        }
    }
}

/// The owners after the unowned ones of the first `n` partitions have gone, one by
/// one, to whoever holds fewest.
pub open spec fn fed(
    all: Seq<(Seq<char>, i32)>,
    sorted: Seq<Member>,
    owners: Seq<Option<int>>,
    n: nat,
) -> Seq<Option<int>>
    decreases n,
{
    if n == 0 {
        owners
    } else {
        let so_far = fed(all, sorted, owners, (n - 1) as nat);
        if so_far[n - 1] is Some {
            so_far
        } else {
            so_far.update(n - 1, fewest(all, sorted, so_far, all[n - 1].0, sorted.len()))
        }
    }
}

/// Whether the owner of the partition at `i` holds at least two more than somebody else
/// that wants the partition.
pub open spec fn lopsided(
    all: Seq<(Seq<char>, i32)>,
    sorted: Seq<Member>,
    owners: Seq<Option<int>>,
    i: int,
) -> bool {
    match (owners[i], fewest(all, sorted, owners, all[i].0, sorted.len())) {
        (Some(o), Some(b)) => held(owners, sorted, sorted[o].id, all.len()) > held(
            owners,
            sorted,
            sorted[b].id,
            all.len(),
        ) + 1,
        _ => false,
    }
}

/// The last of the first `n` partitions whose owner holds too many, `None` where there is
/// none.
pub open spec fn last_lopsided(
    all: Seq<(Seq<char>, i32)>,
    sorted: Seq<Member>,
    owners: Seq<Option<int>>,
    n: nat,
) -> Option<int>
    decreases n,
{
    if n == 0 {
        None
    } else if lopsided(all, sorted, owners, n - 1) {
        Some(n - 1)
    } else {
        last_lopsided(all, sorted, owners, (n - 1) as nat)
    }
}

/// What the owners of the first `n` partitions hold, summed over those partitions: the more
/// evenly the partitions are spread, the smaller.
pub open spec fn weight(
    all: Seq<(Seq<char>, i32)>,
    sorted: Seq<Member>,
    owners: Seq<Option<int>>,
    n: nat,
) -> nat
    decreases n,
{
    if n == 0 {
        0
    } else {
        weight(all, sorted, owners, (n - 1) as nat) + (match owners[n - 1] {
            Some(o) => held(owners, sorted, sorted[o].id, all.len()),
            None => 0,
        })
    }
}

/// The owners once everything has been evened out: as long as some partition's owner holds
/// at least two more than somebody else that wants it, the last such partition goes to
/// whoever of those holds fewest.
pub open spec fn levelled(
    all: Seq<(Seq<char>, i32)>,
    sorted: Seq<Member>,
    owners: Seq<Option<int>>,
) -> Seq<Option<int>>
    decreases weight(all, sorted, owners, all.len()),
        when owners.len() == all.len()
        via lemma_levelled_ends
{
    match last_lopsided(all, sorted, owners, all.len()) {
        None => owners,
        Some(i) => levelled(
            all,
            sorted,
            owners.update(i, fewest(all, sorted, owners, all[i].0, sorted.len())),
        ),
    }
}

/// The first of the first `n` members that has a live claim to a partition and wants it.
pub open spec fn claimant(
    members: Seq<Member>,
    sorted: Seq<Member>,
    slot: (Seq<char>, i32),
    n: nat,
) -> Option<int>
    decreases n,
{
    if n == 0 {
        None
    } else {
        match claimant(members, sorted, slot, (n - 1) as nat) {
            Some(k) => Some(k),
            None => if group::wants(sorted[n - 1], slot.0) && live_claims_of(
                members,
                sorted[n - 1].id,
            ).contains(slot) {
                Some(n - 1)
            } else {
                None
            },
        }
    }
}

/// The owners by the live claims alone.
pub open spec fn as_claimed(
    all: Seq<(Seq<char>, i32)>,
    sorted: Seq<Member>,
    members: Seq<Member>,
) -> Seq<Option<int>> {
    Seq::new(all.len(), |i: int| claimant(members, sorted, all[i], sorted.len()))
}

/// The owners if everyone keeps all that it claims, and what is left goes to whoever holds
/// fewest.
pub open spec fn undisturbed(
    all: Seq<(Seq<char>, i32)>,
    members: Seq<Member>,
) -> Seq<Option<int>> {
    let sorted = group::ordered(members);
    fed(all, sorted, as_claimed(all, sorted, members), all.len())
}

/// The owners that the sticky strategy settles on. Where everyone can keep all that it
/// claims, it does. Otherwise everyone keeps what it may, what is left goes to whoever holds
/// fewest, and where members want different topics the result is evened out.
pub open spec fn sticky_owners(
    all: Seq<(Seq<char>, i32)>,
    members: Seq<Member>,
) -> Seq<Option<int>> {
    let sorted = group::ordered(members);
    if level(all, sorted, undisturbed(all, members)) {
        undisturbed(all, members)
    } else {
        levelled(
            all,
            sorted,
            fed(all, sorted, kept(all, sorted, members, sorted.len()), all.len()),
        )
    }
}

/// Whether no owner holds two more than somebody else that wants the partition.
pub open spec fn level(
    all: Seq<(Seq<char>, i32)>,
    sorted: Seq<Member>,
    owners: Seq<Option<int>>,
) -> bool {
    forall|i: int, k: int|
        0 <= i < all.len() && 0 <= k < sorted.len() && (#[trigger] owners[i]) is Some
            && group::wants(#[trigger] sorted[k], all[i].0) ==> held(
            owners,
            sorted,
            sorted[owners[i].unwrap()].id,
            all.len(),
        ) <= held(owners, sorted, sorted[k].id, all.len()) + 1
}

pub(crate) proof fn lemma_last_lopsided(
    all: Seq<(Seq<char>, i32)>,
    sorted: Seq<Member>,
    owners: Seq<Option<int>>,
    n: nat,
)
    ensures
        match last_lopsided(all, sorted, owners, n) {
            Some(i) => 0 <= i < n && lopsided(all, sorted, owners, i),
            None => forall|i: int| 0 <= i < n ==> !#[trigger] lopsided(all, sorted, owners, i),
        },
    decreases n,
{
    if n > 0 {
        lemma_last_lopsided(all, sorted, owners, (n - 1) as nat);
    }
}

/// Handing an owned partition to another member takes one from what its owner's id holds
/// and adds one to what the other's holds.
proof fn lemma_held_move(
    owners: Seq<Option<int>>,
    sorted: Seq<Member>,
    id: Seq<char>,
    i: int,
    k: int,
    n: nat,
)
    requires
        0 <= i < owners.len(),
        owners[i] is Some,
        n <= owners.len(),
    ensures
        held(owners.update(i, Some(k)), sorted, id, n) == held(owners, sorted, id, n) - (if i < n
            && sorted[owners[i].unwrap()].id == id {
            1int
        } else {
            0
        }) + (if i < n && sorted[k].id == id {
            1int
        } else {
            0
        }),
    decreases n,
{
    if n > 0 {
        lemma_held_move(owners, sorted, id, i, k, (n - 1) as nat);
    }
}

/// Handing a partition to another member changes the weight by what the two ids hold.
proof fn lemma_weight_move(
    all: Seq<(Seq<char>, i32)>,
    owners: Seq<Option<int>>,
    sorted: Seq<Member>,
    i: int,
    k: int,
    n: nat,
)
    requires
        0 <= i < owners.len(),
        owners.len() == all.len(),
        owners[i] is Some,
        sorted[owners[i].unwrap()].id != sorted[k].id,
        n <= owners.len(),
    ensures
        ({
            let (from, to) = (sorted[owners[i].unwrap()].id, sorted[k].id);
            weight(all, sorted, owners.update(i, Some(k)), n) == weight(all, sorted, owners, n)
                + held(owners, sorted, to, n) - held(owners, sorted, from, n) + (if i < n {
                held(owners, sorted, to, all.len()) - held(owners, sorted, from, all.len()) + 2
            } else {
                0
            })
        }),
    decreases n,
{
    if n > 0 {
        lemma_weight_move(all, owners, sorted, i, k, (n - 1) as nat);
        let now = owners.update(i, Some(k));
        if let Some(o) = now[n - 1] {
            lemma_held_move(owners, sorted, sorted[o].id, i, k, all.len());
        }
    }
}

/// Each step of evening out makes the weight smaller.
pub(crate) proof fn lemma_handing_over_lightens(
    all: Seq<(Seq<char>, i32)>,
    sorted: Seq<Member>,
    owners: Seq<Option<int>>,
)
    requires
        owners.len() == all.len(),
    ensures
        last_lopsided(all, sorted, owners, all.len()) matches Some(i) ==> weight(
            all,
            sorted,
            owners.update(i, fewest(all, sorted, owners, all[i].0, sorted.len())),
            all.len(),
        ) < weight(all, sorted, owners, all.len()),
{
    lemma_last_lopsided(all, sorted, owners, all.len());
    if let Some(i) = last_lopsided(all, sorted, owners, all.len()) {
        let b = fewest(all, sorted, owners, all[i].0, sorted.len()).unwrap();
        lemma_weight_move(all, owners, sorted, i, b, all.len());
    }
}

#[via_fn]
proof fn lemma_levelled_ends(
    all: Seq<(Seq<char>, i32)>,
    sorted: Seq<Member>,
    owners: Seq<Option<int>>,
) {
    lemma_handing_over_lightens(all, sorted, owners);
}

proof fn lemma_held_bound(owners: Seq<Option<int>>, sorted: Seq<Member>, id: Seq<char>, n: nat)
    ensures
        held(owners, sorted, id, n) <= n,
    decreases n,
{
    if n > 0 {
        lemma_held_bound(owners, sorted, id, (n - 1) as nat);
    }
}

/// Giving an unowned partition to a member adds one to what its id holds.
pub(crate) proof fn lemma_held_update(
    owners: Seq<Option<int>>,
    sorted: Seq<Member>,
    id: Seq<char>,
    i: int,
    k: int,
    n: nat,
)
    requires
        0 <= i < owners.len(),
        owners[i] is None,
        n <= owners.len(),
    ensures
        held(owners.update(i, Some(k)), sorted, id, n) == held(owners, sorted, id, n) + (if i < n
            && sorted[k].id == id {
            1nat
        } else {
            0
        }),
    decreases n,
{
    if n > 0 {
        lemma_held_update(owners, sorted, id, i, k, (n - 1) as nat);
    }
}

/// Whether the counts say how many partitions each member's id holds.
spec fn counted(counts: Seq<usize>, owners: Seq<Option<int>>, sorted: Seq<Member>) -> bool {
    &&& counts.len() == sorted.len()
    &&& forall|j: int|
        0 <= j < counts.len() ==> (#[trigger] counts[j]) == held(
            owners,
            sorted,
            sorted[j].id,
            owners.len(),
        )
}

/// Gives the partition at `i` to the member at place `k`.
fn give(
    members: &[Subscription],
    order: &Vec<usize>,
    owners: &mut Vec<Option<usize>>,
    counts: &mut Vec<usize>,
    i: usize,
    k: usize,
)
    requires
        forall|k: int| 0 <= k < order@.len() ==> (#[trigger] order@[k]) < members@.len(),
        i < old(owners)@.len(),
        k < order@.len(),
        old(owners)@[i as int] is None,
        counted(
            old(counts)@,
            group::owners_of(old(owners)@),
            group::at_indices(group::members_of(members@), order@),
        ),
        forall|i: int|
            0 <= i < old(owners)@.len() ==> ((#[trigger] old(owners)@[i]) matches Some(k) ==> k
                < order@.len()),
    ensures
        final(owners)@.len() == old(owners)@.len(),
        group::owners_of(final(owners)@) == group::owners_of(old(owners)@).update(
            i as int,
            Some(k as int),
        ),
        counted(
            final(counts)@,
            group::owners_of(final(owners)@),
            group::at_indices(group::members_of(members@), order@),
        ),
        forall|i: int|
            0 <= i < final(owners)@.len() ==> ((#[trigger] final(owners)@[i]) matches Some(k)
                ==> k < order@.len()),
{
    let ghost sorted = group::at_indices(group::members_of(members@), order@);
    let ghost before = group::owners_of(owners@);
    let ghost were = counts@;
    let size: usize = owners.len();
    assert(before[i as int] is None);
    owners[i] = Some(k);
    let ghost now = group::owners_of(owners@);
    assert(now =~= before.update(i as int, Some(k as int)));
    assert(now.len() == size);
    let id = members[order[k]].member_id.as_str();
    assert(sorted[k as int].id == id@);
    let mut j: usize = 0;
    while j < counts.len()
        invariant
            forall|k: int| 0 <= k < order@.len() ==> (#[trigger] order@[k]) < members@.len(),
            sorted == group::at_indices(group::members_of(members@), order@),
            k < order@.len(),
            sorted[k as int].id == id@,
            i < before.len(),
            before[i as int] is None,
            now == before.update(i as int, Some(k as int)),
            now.len() == size,
            counted(were, before, sorted),
            counts@.len() == were.len(),
            j <= counts@.len(),
            forall|t: int|
                0 <= t < j ==> (#[trigger] counts@[t]) == held(
                    now,
                    sorted,
                    sorted[t].id,
                    now.len(),
                ),
            forall|t: int| j <= t < counts@.len() ==> (#[trigger] counts@[t]) == were[t],
        decreases counts@.len() - j,
    {
        assert(sorted[j as int].id == members@[order@[j as int] as int].member_id@);
        proof {
            lemma_held_update(
                before,
                sorted,
                sorted[j as int].id,
                i as int,
                k as int,
                before.len(),
            );
            lemma_held_bound(now, sorted, sorted[j as int].id, now.len());
            assert(were[j as int] == held(before, sorted, sorted[j as int].id, before.len()));
        }
        if names::same(members[order[j]].member_id.as_str(), id) {
            let count: usize = counts[j];
            counts[j] = count + 1;
        }
        j = j + 1;
    }
}

/// Hands the partition at `i` from its owner to the member at place `k`.
fn hand_over(
    members: &[Subscription],
    order: &Vec<usize>,
    owners: &mut Vec<Option<usize>>,
    counts: &mut Vec<usize>,
    i: usize,
    k: usize,
)
    requires
        forall|k: int| 0 <= k < order@.len() ==> (#[trigger] order@[k]) < members@.len(),
        i < old(owners)@.len(),
        k < order@.len(),
        old(owners)@[i as int] is Some,
        counted(
            old(counts)@,
            group::owners_of(old(owners)@),
            group::at_indices(group::members_of(members@), order@),
        ),
        forall|i: int|
            0 <= i < old(owners)@.len() ==> ((#[trigger] old(owners)@[i]) matches Some(k) ==> k
                < order@.len()),
    ensures
        final(owners)@.len() == old(owners)@.len(),
        group::owners_of(final(owners)@) == group::owners_of(old(owners)@).update(
            i as int,
            Some(k as int),
        ),
        counted(
            final(counts)@,
            group::owners_of(final(owners)@),
            group::at_indices(group::members_of(members@), order@),
        ),
        forall|i: int|
            0 <= i < final(owners)@.len() ==> ((#[trigger] final(owners)@[i]) matches Some(k)
                ==> k < order@.len()),
{
    let ghost sorted = group::at_indices(group::members_of(members@), order@);
    let ghost before = group::owners_of(owners@);
    let ghost were = counts@;
    let size: usize = owners.len();
    let from: usize = match owners[i] {
        Some(o) => o,
        None => k,
    };
    assert(before[i as int] == Some(from as int));
    assert(from < order@.len()) by {
        assert(owners@[i as int] == Some(from));
    }
    owners[i] = Some(k);
    let ghost now = group::owners_of(owners@);
    assert(now =~= before.update(i as int, Some(k as int)));
    assert(now.len() == size);
    let giver = members[order[from]].member_id.as_str();
    let taker = members[order[k]].member_id.as_str();
    assert(sorted[from as int].id == giver@);
    assert(sorted[k as int].id == taker@);
    let mut j: usize = 0;
    while j < counts.len()
        invariant
            forall|k: int| 0 <= k < order@.len() ==> (#[trigger] order@[k]) < members@.len(),
            sorted == group::at_indices(group::members_of(members@), order@),
            k < order@.len(),
            from < order@.len(),
            sorted[from as int].id == giver@,
            sorted[k as int].id == taker@,
            i < before.len(),
            before[i as int] == Some(from as int),
            now == before.update(i as int, Some(k as int)),
            now.len() == size,
            counted(were, before, sorted),
            counts@.len() == were.len(),
            j <= counts@.len(),
            forall|t: int|
                0 <= t < j ==> (#[trigger] counts@[t]) == held(
                    now,
                    sorted,
                    sorted[t].id,
                    now.len(),
                ),
            forall|t: int| j <= t < counts@.len() ==> (#[trigger] counts@[t]) == were[t],
        decreases counts@.len() - j,
    {
        assert(sorted[j as int].id == members@[order@[j as int] as int].member_id@);
        proof {
            let id = sorted[j as int].id;
            lemma_held_move(before, sorted, id, i as int, k as int, before.len());
            lemma_held_bound(now, sorted, id, now.len());
            lemma_held_bound(before, sorted, id, before.len());
            assert(were[j as int] == held(before, sorted, id, before.len()));
        }
        let id = members[order[j]].member_id.as_str();
        let gives: bool = names::same(id, giver);
        let takes: bool = names::same(id, taker);
        let count: usize = counts[j];
        if gives && !takes {
            counts[j] = count - 1;
        } else if takes && !gives {
            counts[j] = count + 1;
        }
        j = j + 1;
    }
}

/// A member's fair share, and how many partitions are left over by it.
fn fair_share_of(
    members: &[Subscription],
    order: &Vec<usize>,
    all: &Vec<TopicPartition>,
    k: usize,
) -> (share: (usize, usize))
    requires
        forall|k: int| 0 <= k < order@.len() ==> (#[trigger] order@[k]) < members@.len(),
        k < order@.len(),
    ensures
        ({
            let sorted = group::at_indices(group::members_of(members@), order@);
            let slots = group::slots_of(all@);
            &&& share.0 == fair_share(slots, sorted, k as int)
            &&& share.1 == left_over(slots, sorted, k as int)
            &&& share.1 > 0 ==> share.0 < usize::MAX
        }),
{
    let ghost sorted = group::at_indices(group::members_of(members@), order@);
    let ghost slots = group::slots_of(all@);
    let ghost me = sorted[k as int];
    let member = &members[order[k]];
    assert(me == member@);
    let mut wanted: usize = 0;
    let mut i: usize = 0;
    while i < all.len()
        invariant
            slots == group::slots_of(all@),
            me == member@,
            i <= all@.len(),
            wanted <= i,
            wanted == wanted_count(slots, me, i as nat),
        decreases all@.len() - i,
    {
        assert(slots[i as int].0 == all@[i as int].topic@);
        if names::has(member.topics.as_slice(), all[i].topic.as_str()) {
            wanted = wanted + 1;
        }
        i = i + 1;
    }
    let mut count: usize = 0;
    let mut j: usize = 0;
    while j < order.len()
        invariant
            forall|k: int| 0 <= k < order@.len() ==> (#[trigger] order@[k]) < members@.len(),
            sorted == group::at_indices(group::members_of(members@), order@),
            me == member@,
            j <= order@.len(),
            count <= j,
            count == sharer_count(sorted, me, j as nat),
        decreases order@.len() - j,
    {
        let other = &members[order[j]];
        assert(sorted[j as int] == other@);
        if have_common_topic(other, member) {
            count = count + 1;
        }
        j = j + 1;
    }
    let by: usize = if count > 1 {
        count
    } else {
        1
    };
    let whole: usize = wanted / by;
    let rest: usize = wanted % by;
    proof {
        vstd::arithmetic::div_mod::lemma_fundamental_div_mod(wanted as int, by as int);
        if rest > 0 {
            assert(whole < wanted) by {
                if whole >= wanted {
                    assert(by * whole >= wanted) by (nonlinear_arith)
                        requires
                            by >= 1,
                            whole >= wanted,
                    ;
                }
            }
        }
    }
    (whole, rest)
}

/// Whether the list says each member's fair share, and what is left over by it.
spec fn shared_out(
    shares: Seq<(usize, usize)>,
    all: Seq<(Seq<char>, i32)>,
    sorted: Seq<Member>,
) -> bool {
    &&& shares.len() == sorted.len()
    &&& forall|j: int|
        0 <= j < shares.len() ==> {
            &&& (#[trigger] shares[j]).0 == fair_share(all, sorted, j)
            &&& shares[j].1 == left_over(all, sorted, j)
            &&& shares[j].1 > 0 ==> shares[j].0 < usize::MAX
        }
}

/// How many partitions the member at place `k` may keep.
fn quota_of(
    members: &[Subscription],
    order: &Vec<usize>,
    shares: &Vec<(usize, usize)>,
    counts: &Vec<usize>,
    k: usize,
    Ghost(all): Ghost<Seq<(Seq<char>, i32)>>,
    Ghost(owners): Ghost<Seq<Option<int>>>,
) -> (share: usize)
    requires
        forall|k: int| 0 <= k < order@.len() ==> (#[trigger] order@[k]) < members@.len(),
        k < order@.len(),
        owners.len() == all.len(),
        counted(counts@, owners, group::at_indices(group::members_of(members@), order@)),
        shared_out(shares@, all, group::at_indices(group::members_of(members@), order@)),
    ensures
        share == quota(
            all,
            group::at_indices(group::members_of(members@), order@),
            owners,
            k as int,
        ),
{
    let ghost sorted = group::at_indices(group::members_of(members@), order@);
    let member = &members[order[k]];
    assert(sorted[k as int] == member@);
    let mut larger: usize = 0;
    let mut j: usize = 0;
    while j < k
        invariant
            forall|k: int| 0 <= k < order@.len() ==> (#[trigger] order@[k]) < members@.len(),
            sorted == group::at_indices(group::members_of(members@), order@),
            k < order@.len(),
            sorted[k as int] == member@,
            owners.len() == all.len(),
            counted(counts@, owners, sorted),
            shared_out(shares@, all, sorted),
            j <= k,
            larger <= j,
            larger == larger_shares(all, sorted, owners, k as int, j as nat),
        decreases k - j,
    {
        let other = &members[order[j]];
        assert(sorted[j as int] == other@);
        assert(shares@[j as int].0 == fair_share(all, sorted, j as int));
        assert(counts@[j as int] == held(owners, sorted, sorted[j as int].id, owners.len()));
        if have_common_topic(other, member) && counts[j] > shares[j].0 {
            larger = larger + 1;
        }
        j = j + 1;
    }
    assert(shares@[k as int].0 == fair_share(all, sorted, k as int));
    let (whole, rest) = shares[k];
    if larger < rest {
        whole + 1
    } else {
        whole
    }
}

/// Whether two members want a topic in common.
fn have_common_topic(a: &Subscription, b: &Subscription) -> (yes: bool)
    ensures
        yes == shares_a_topic(a@, b@),
{
    let mut t: usize = 0;
    while t < a.topics.len()
        invariant
            t <= a.topics@.len(),
            forall|u: int| 0 <= u < t ==> !group::wants(b@, #[trigger] a@.topics[u]),
        decreases a.topics@.len() - t,
    {
        assert(a@.topics[t as int] == a.topics@[t as int]@);
        if names::has(b.topics.as_slice(), a.topics[t].as_str()) {
            return true;
        }
        t = t + 1;
    }
    false
}

/// The place of a partition.
fn find_slot(all: &Vec<TopicPartition>, slot: &TopicPartition) -> (found: Option<usize>)
    ensures
        match found {
            Some(i) => i < all@.len() && slot_index(group::slots_of(all@), slot@, all@.len())
                == Some(i as int),
            None => slot_index(group::slots_of(all@), slot@, all@.len()) is None,
        },
{
    let ghost slots = group::slots_of(all@);
    let mut n: usize = all.len();
    while n > 0
        invariant
            slots == group::slots_of(all@),
            n <= all@.len(),
            slot_index(slots, slot@, all@.len()) == slot_index(slots, slot@, n as nat),
        decreases n,
    {
        assert(slots[n - 1] == all@[n - 1]@);
        if all[n - 1].is(slot) {
            return Some(n - 1);
        }
        n = n - 1;
    }
    None
}

/// Lets the member at place `k` keep what it may of its claims.
fn keep_claims(
    members: &[Subscription],
    order: &Vec<usize>,
    all: &Vec<TopicPartition>,
    shares: &Vec<(usize, usize)>,
    owners: &mut Vec<Option<usize>>,
    counts: &mut Vec<usize>,
    k: usize,
)
    requires
        forall|k: int| 0 <= k < order@.len() ==> (#[trigger] order@[k]) < members@.len(),
        k < order@.len(),
        old(owners)@.len() == all@.len(),
        shared_out(
            shares@,
            group::slots_of(all@),
            group::at_indices(group::members_of(members@), order@),
        ),
        counted(
            old(counts)@,
            group::owners_of(old(owners)@),
            group::at_indices(group::members_of(members@), order@),
        ),
        forall|i: int|
            0 <= i < old(owners)@.len() ==> ((#[trigger] old(owners)@[i]) matches Some(k) ==> k
                < order@.len()),
    ensures
        final(owners)@.len() == all@.len(),
        ({
            let views = group::members_of(members@);
            let sorted = group::at_indices(views, order@);
            let claims = live_claims_of(views, sorted[k as int].id);
            group::owners_of(final(owners)@) == keep(
                group::slots_of(all@),
                sorted,
                group::owners_of(old(owners)@),
                k as int,
                claims,
                claims.len(),
            )
        }),
        counted(
            final(counts)@,
            group::owners_of(final(owners)@),
            group::at_indices(group::members_of(members@), order@),
        ),
        forall|i: int|
            0 <= i < final(owners)@.len() ==> ((#[trigger] final(owners)@[i]) matches Some(k)
                ==> k < order@.len()),
{
    let ghost views = group::members_of(members@);
    let ghost sorted = group::at_indices(views, order@);
    let ghost slots = group::slots_of(all@);
    let ghost start = group::owners_of(owners@);
    let share: usize = quota_of(members, order, shares, counts, k, Ghost(slots), Ghost(start));
    let member = &members[order[k]];
    assert(sorted[k as int] == member@);
    match live_claims(members, member.member_id.as_str()) {
        None => {},
        Some(list) => {
            let ghost claims = group::slots_of(list@);
            let mut n: usize = 0;
            while n < list.len()
                invariant
                    forall|k: int|
                        0 <= k < order@.len() ==> (#[trigger] order@[k]) < members@.len(),
                    sorted == group::at_indices(group::members_of(members@), order@),
                    sorted.len() == order@.len(),
                    slots == group::slots_of(all@),
                    claims == group::slots_of(list@),
                    k < order@.len(),
                    sorted[k as int] == member@,
                    share == quota(slots, sorted, start, k as int),
                    n <= list@.len(),
                    owners@.len() == all@.len(),
                    group::owners_of(owners@).len() == all@.len(),
                    counted(counts@, group::owners_of(owners@), sorted),
                    forall|i: int|
                        0 <= i < owners@.len() ==> ((#[trigger] owners@[i]) matches Some(k)
                            ==> k < order@.len()),
                    group::owners_of(owners@) == keep(
                        slots,
                        sorted,
                        start,
                        k as int,
                        claims,
                        n as nat,
                    ),
                decreases list@.len() - n,
            {
                let ghost was = group::owners_of(owners@);
                let tp = &list[n];
                assert(claims[n as int] == tp@);
                assert(counts@[k as int] == held(was, sorted, sorted[k as int].id, was.len()));
                if counts[k] < share {
                    match find_slot(all, tp) {
                        None => {},
                        Some(i) => {
                            assert(was[i as int] == match owners@[i as int] {
                                Some(k) => Some(k as int),
                                None => None,
                            });
                            if owners[i].is_none() && names::has(
                                member.topics.as_slice(),
                                tp.topic.as_str(),
                            ) {
                                give(members, order, owners, counts, i, k);
                            }
                        },
                    }
                }
                n = n + 1;
            }
        },
    }
}

/// Of the members that want a topic, the first of those that hold fewest.
fn find_fewest(
    members: &[Subscription],
    order: &Vec<usize>,
    counts: &Vec<usize>,
    topic: &str,
    Ghost(all): Ghost<Seq<(Seq<char>, i32)>>,
    Ghost(owners): Ghost<Seq<Option<int>>>,
) -> (found: Option<usize>)
    requires
        forall|k: int| 0 <= k < order@.len() ==> (#[trigger] order@[k]) < members@.len(),
        owners.len() == all.len(),
        counted(counts@, owners, group::at_indices(group::members_of(members@), order@)),
    ensures
        ({
            let sorted = group::at_indices(group::members_of(members@), order@);
            match found {
                Some(k) => k < order@.len() && fewest(all, sorted, owners, topic@, sorted.len())
                    == Some(k as int),
                None => fewest(all, sorted, owners, topic@, sorted.len()) is None,
            }
        }),
{
    let ghost sorted = group::at_indices(group::members_of(members@), order@);
    let mut best: Option<usize> = None;
    let mut k: usize = 0;
    while k < order.len()
        invariant
            forall|k: int| 0 <= k < order@.len() ==> (#[trigger] order@[k]) < members@.len(),
            sorted == group::at_indices(group::members_of(members@), order@),
            owners.len() == all.len(),
            counted(counts@, owners, sorted),
            k <= order@.len(),
            match best {
                Some(b) => b < k && fewest(all, sorted, owners, topic@, k as nat) == Some(b as int),
                None => fewest(all, sorted, owners, topic@, k as nat) is None,
            },
        decreases order@.len() - k,
    {
        assert(sorted[k as int] == members@[order@[k as int] as int]@);
        if names::has(members[order[k]].topics.as_slice(), topic) {
            match best {
                None => {
                    best = Some(k);
                },
                Some(b) => {
                    assert(counts@[k as int] == held(
                        owners,
                        sorted,
                        sorted[k as int].id,
                        all.len(),
                    ));
                    assert(counts@[b as int] == held(
                        owners,
                        sorted,
                        sorted[b as int].id,
                        all.len(),
                    ));
                    if counts[k] < counts[b] {
                        best = Some(k);
                    }
                },
            }
        }
        k = k + 1;
    }
    best
}

/// The last partition whose owner holds too many, and who of those that want it holds
/// fewest.
fn find_lopsided(
    members: &[Subscription],
    order: &Vec<usize>,
    all: &Vec<TopicPartition>,
    owners: &Vec<Option<usize>>,
    counts: &Vec<usize>,
) -> (found: Option<(usize, usize)>)
    requires
        forall|k: int| 0 <= k < order@.len() ==> (#[trigger] order@[k]) < members@.len(),
        owners@.len() == all@.len(),
        counted(
            counts@,
            group::owners_of(owners@),
            group::at_indices(group::members_of(members@), order@),
        ),
        forall|i: int|
            0 <= i < owners@.len() ==> ((#[trigger] owners@[i]) matches Some(k) ==> k
                < order@.len()),
    ensures
        ({
            let sorted = group::at_indices(group::members_of(members@), order@);
            let slots = group::slots_of(all@);
            let held_by = group::owners_of(owners@);
            match found {
                Some((i, k)) => {
                    &&& i < all@.len()
                    &&& k < order@.len()
                    &&& owners@[i as int] is Some
                    &&& last_lopsided(slots, sorted, held_by, slots.len()) == Some(i as int)
                    &&& fewest(slots, sorted, held_by, slots[i as int].0, sorted.len()) == Some(
                        k as int,
                    )
                },
                None => last_lopsided(slots, sorted, held_by, slots.len()) is None,
            }
        }),
{
    let ghost sorted = group::at_indices(group::members_of(members@), order@);
    let ghost slots = group::slots_of(all@);
    let ghost held_by = group::owners_of(owners@);
    let mut n: usize = all.len();
    while n > 0
        invariant
            forall|k: int| 0 <= k < order@.len() ==> (#[trigger] order@[k]) < members@.len(),
            sorted == group::at_indices(group::members_of(members@), order@),
            sorted.len() == order@.len(),
            slots == group::slots_of(all@),
            slots.len() == all@.len(),
            held_by == group::owners_of(owners@),
            held_by.len() == all@.len(),
            owners@.len() == all@.len(),
            counted(counts@, held_by, sorted),
            forall|i: int|
                0 <= i < owners@.len() ==> ((#[trigger] owners@[i]) matches Some(k) ==> k
                    < order@.len()),
            n <= all@.len(),
            last_lopsided(slots, sorted, held_by, slots.len()) == last_lopsided(
                slots,
                sorted,
                held_by,
                n as nat,
            ),
        decreases n,
    {
        assert(slots[n - 1].0 == all@[n - 1].topic@);
        assert(held_by[n - 1] == match owners@[n - 1] {
            Some(k) => Some(k as int),
            None => None,
        });
        if let Some(o) = owners[n - 1] {
            assert(owners@[n - 1] == Some(o));
            if let Some(k) = find_fewest(
                members,
                order,
                counts,
                all[n - 1].topic.as_str(),
                Ghost(slots),
                Ghost(held_by),
            ) {
                assert(counts@[o as int] == held(
                    held_by,
                    sorted,
                    sorted[o as int].id,
                    slots.len(),
                ));
                assert(counts@[k as int] == held(
                    held_by,
                    sorted,
                    sorted[k as int].id,
                    slots.len(),
                ));
                if counts[o] > counts[k] && counts[o] - counts[k] > 1 {
                    return Some((n - 1, k));
                }
            }
        }
        n = n - 1;
    }
    None
}

/// Whether a list holds a partition.
fn lists_slot(list: &Vec<TopicPartition>, slot: &TopicPartition) -> (yes: bool)
    ensures
        yes == group::slots_of(list@).contains(slot@),
{
    let mut c: usize = 0;
    while c < list.len()
        invariant
            c <= list@.len(),
            forall|d: int| 0 <= d < c ==> (#[trigger] group::slots_of(list@)[d]) != slot@,
        decreases list@.len() - c,
    {
        assert(group::slots_of(list@)[c as int] == list@[c as int]@);
        if list[c].is(slot) {
            return true;
        }
        c = c + 1;
    }
    false
}

/// Nobody owns anything, and everybody holds nothing.
fn unowned(
    members: &[Subscription],
    order: &Vec<usize>,
    all: &Vec<TopicPartition>,
) -> (start: (Vec<Option<usize>>, Vec<usize>))
    ensures
        start.0@.len() == all@.len(),
        group::owners_of(start.0@) == Seq::new(all@.len(), |i: int| None::<int>),
        forall|i: int| 0 <= i < start.0@.len() ==> (#[trigger] start.0@[i]) is None,
        counted(
            start.1@,
            group::owners_of(start.0@),
            group::at_indices(group::members_of(members@), order@),
        ),
{
    let ghost sorted = group::at_indices(group::members_of(members@), order@);
    let mut owners: Vec<Option<usize>> = Vec::new();
    let mut i: usize = 0;
    while i < all.len()
        invariant
            i <= all@.len(),
            owners@.len() == i,
            forall|j: int| 0 <= j < i ==> (#[trigger] owners@[j]) is None,
        decreases all@.len() - i,
    {
        owners.push(None);
        i = i + 1;
    }
    let mut counts: Vec<usize> = Vec::new();
    let mut k: usize = 0;
    while k < order.len()
        invariant
            k <= order@.len(),
            counts@.len() == k,
            forall|j: int| 0 <= j < k ==> (#[trigger] counts@[j]) == 0,
        decreases order@.len() - k,
    {
        counts.push(0);
        k = k + 1;
    }
    proof {
        let nobody = group::owners_of(owners@);
        assert(nobody =~= Seq::new(all@.len(), |i: int| None::<int>));
        assert forall|j: int| 0 <= j < counts@.len() implies (#[trigger] counts@[j]) == held(
            nobody,
            sorted,
            sorted[j].id,
            nobody.len(),
        ) by {
            lemma_held_nobody(nobody, sorted, sorted[j].id, nobody.len());
        }
    }
    (owners, counts)
}

/// Gives everything to whoever claims it.
fn claim_all(
    members: &[Subscription],
    order: &Vec<usize>,
    all: &Vec<TopicPartition>,
    owners: &mut Vec<Option<usize>>,
    counts: &mut Vec<usize>,
)
    requires
        forall|k: int| 0 <= k < order@.len() ==> (#[trigger] order@[k]) < members@.len(),
        old(owners)@.len() == all@.len(),
        forall|i: int| 0 <= i < old(owners)@.len() ==> (#[trigger] old(owners)@[i]) is None,
        counted(
            old(counts)@,
            group::owners_of(old(owners)@),
            group::at_indices(group::members_of(members@), order@),
        ),
    ensures
        final(owners)@.len() == all@.len(),
        ({
            let views = group::members_of(members@);
            let sorted = group::at_indices(views, order@);
            group::owners_of(final(owners)@) == as_claimed(group::slots_of(all@), sorted, views)
        }),
        counted(
            final(counts)@,
            group::owners_of(final(owners)@),
            group::at_indices(group::members_of(members@), order@),
        ),
        forall|i: int|
            0 <= i < final(owners)@.len() ==> ((#[trigger] final(owners)@[i]) matches Some(k)
                ==> k < order@.len()),
{
    let ghost views = group::members_of(members@);
    let ghost sorted = group::at_indices(views, order@);
    let ghost slots = group::slots_of(all@);
    let mut k: usize = 0;
    while k < order.len()
        invariant
            forall|k: int| 0 <= k < order@.len() ==> (#[trigger] order@[k]) < members@.len(),
            views == group::members_of(members@),
            sorted == group::at_indices(views, order@),
            sorted.len() == order@.len(),
            slots == group::slots_of(all@),
            k <= order@.len(),
            owners@.len() == all@.len(),
            counted(counts@, group::owners_of(owners@), sorted),
            forall|i: int|
                0 <= i < owners@.len() ==> ((#[trigger] owners@[i]) matches Some(k) ==> k
                    < order@.len()),
            forall|i: int|
                0 <= i < owners@.len() ==> (#[trigger] group::owners_of(owners@)[i]) == claimant(
                    views,
                    sorted,
                    slots[i],
                    k as nat,
                ),
        decreases order@.len() - k,
    {
        let member = &members[order[k]];
        assert(sorted[k as int] == member@);
        let claims = live_claims(members, member.member_id.as_str());
        let mut i: usize = 0;
        while i < all.len()
            invariant
                forall|k: int|
                    0 <= k < order@.len() ==> (#[trigger] order@[k]) < members@.len(),
                views == group::members_of(members@),
                sorted == group::at_indices(views, order@),
                sorted.len() == order@.len(),
                slots == group::slots_of(all@),
                k < order@.len(),
                sorted[k as int] == member@,
                live_claims_of(views, member@.id) == match claims {
                    Some(v) => group::slots_of(v@),
                    None => Seq::<(Seq<char>, i32)>::empty(),
                },
                i <= all@.len(),
                owners@.len() == all@.len(),
                counted(counts@, group::owners_of(owners@), sorted),
                forall|i: int|
                    0 <= i < owners@.len() ==> ((#[trigger] owners@[i]) matches Some(k) ==> k
                        < order@.len()),
                forall|j: int|
                    0 <= j < i ==> (#[trigger] group::owners_of(owners@)[j]) == claimant(
                        views,
                        sorted,
                        slots[j],
                        (k + 1) as nat,
                    ),
                forall|j: int|
                    i <= j < owners@.len() ==> (#[trigger] group::owners_of(owners@)[j])
                        == claimant(views, sorted, slots[j], k as nat),
            decreases all@.len() - i,
        {
            let ghost was = group::owners_of(owners@);
            assert(slots[i as int] == all@[i as int]@);
            assert(was[i as int] == match owners@[i as int] {
                Some(k) => Some(k as int),
                None => None,
            });
            let claims_it: bool = match claims {
                Some(list) => lists_slot(list, &all[i]),
                None => false,
            };
            if owners[i].is_none() && claims_it && names::has(
                member.topics.as_slice(),
                all[i].topic.as_str(),
            ) {
                give(members, order, owners, counts, i, k);
            }
            i = i + 1;
        }
        k = k + 1;
    }
    assert(group::owners_of(owners@) =~= as_claimed(slots, sorted, views));
}

/// Gives what nobody owns, one by one, to whoever holds fewest.
fn feed(
    members: &[Subscription],
    order: &Vec<usize>,
    all: &Vec<TopicPartition>,
    owners: &mut Vec<Option<usize>>,
    counts: &mut Vec<usize>,
)
    requires
        forall|k: int| 0 <= k < order@.len() ==> (#[trigger] order@[k]) < members@.len(),
        old(owners)@.len() == all@.len(),
        counted(
            old(counts)@,
            group::owners_of(old(owners)@),
            group::at_indices(group::members_of(members@), order@),
        ),
        forall|i: int|
            0 <= i < old(owners)@.len() ==> ((#[trigger] old(owners)@[i]) matches Some(k) ==> k
                < order@.len()),
    ensures
        final(owners)@.len() == all@.len(),
        group::owners_of(final(owners)@) == fed(
            group::slots_of(all@),
            group::at_indices(group::members_of(members@), order@),
            group::owners_of(old(owners)@),
            all@.len(),
        ),
        counted(
            final(counts)@,
            group::owners_of(final(owners)@),
            group::at_indices(group::members_of(members@), order@),
        ),
        forall|i: int|
            0 <= i < final(owners)@.len() ==> ((#[trigger] final(owners)@[i]) matches Some(k)
                ==> k < order@.len()),
{
    let ghost sorted = group::at_indices(group::members_of(members@), order@);
    let ghost slots = group::slots_of(all@);
    let ghost start = group::owners_of(owners@);
    let mut i: usize = 0;
    while i < all.len()
        invariant
            forall|k: int| 0 <= k < order@.len() ==> (#[trigger] order@[k]) < members@.len(),
            sorted == group::at_indices(group::members_of(members@), order@),
            sorted.len() == order@.len(),
            slots == group::slots_of(all@),
            slots.len() == all@.len(),
            i <= all@.len(),
            owners@.len() == all@.len(),
            group::owners_of(owners@).len() == all@.len(),
            counted(counts@, group::owners_of(owners@), sorted),
            forall|i: int|
                0 <= i < owners@.len() ==> ((#[trigger] owners@[i]) matches Some(k) ==> k
                    < order@.len()),
            group::owners_of(owners@) == fed(slots, sorted, start, i as nat),
        decreases all@.len() - i,
    {
        let ghost was = group::owners_of(owners@);
        assert(slots[i as int].0 == all@[i as int].topic@);
        assert(was[i as int] == match owners@[i as int] {
            Some(k) => Some(k as int),
            None => None,
        });
        if owners[i].is_none() {
            match find_fewest(
                members,
                order,
                counts,
                all[i].topic.as_str(),
                Ghost(slots),
                Ghost(was),
            ) {
                Some(k) => {
                    give(members, order, owners, counts, i, k);
                },
                None => {
                    assert(was.update(i as int, None) =~= was);
                },
            }
        }
        i = i + 1;
    }
}

/// Where nobody holds two more than somebody else that wants the same, nothing is lopsided.
pub(crate) proof fn lemma_level_is_not_lopsided(
    all: Seq<(Seq<char>, i32)>,
    sorted: Seq<Member>,
    owners: Seq<Option<int>>,
)
    requires
        level(all, sorted, owners),
    ensures
        last_lopsided(all, sorted, owners, all.len()) is None,
{
    lemma_last_lopsided(all, sorted, owners, all.len());
    if let Some(i) = last_lopsided(all, sorted, owners, all.len()) {
        lemma_fewest(all, sorted, owners, all[i].0, sorted.len());
        let b = fewest(all, sorted, owners, all[i].0, sorted.len()).unwrap();
        assert(owners[i] is Some && group::wants(sorted[b], all[i].0));
    }
}

/// The owners that the sticky strategy settles on, as places in `order`.
pub(crate) fn settle(
    members: &[Subscription],
    order: &Vec<usize>,
    all: &Vec<TopicPartition>,
) -> (owners: Vec<Option<usize>>)
    requires
        forall|k: int| 0 <= k < order@.len() ==> (#[trigger] order@[k]) < members@.len(),
        group::at_indices(group::members_of(members@), order@) == group::ordered(
            group::members_of(members@),
        ),
    ensures
        owners@.len() == all@.len(),
        forall|i: int|
            0 <= i < owners@.len() ==> ((#[trigger] owners@[i]) matches Some(k) ==> k
                < order@.len()),
        group::owners_of(owners@) == sticky_owners(
            group::slots_of(all@),
            group::members_of(members@),
        ),
        level(
            group::slots_of(all@),
            group::ordered(group::members_of(members@)),
            group::owners_of(owners@),
        ),
{
    let ghost views = group::members_of(members@);
    let ghost sorted = group::at_indices(views, order@);
    let ghost slots = group::slots_of(all@);
    let (mut current, mut holds) = unowned(members, order, all);
    claim_all(members, order, all, &mut current, &mut holds);
    feed(members, order, all, &mut current, &mut holds);
    assert(group::owners_of(current@) == undisturbed(slots, views));
    if find_lopsided(members, order, all, &current, &holds).is_none() {
        proof {
            lemma_level(slots, sorted, group::owners_of(current@));
        }
        return current;
    }
    proof {
        if level(slots, sorted, undisturbed(slots, views)) {
            lemma_level_is_not_lopsided(slots, sorted, undisturbed(slots, views));
        }
    }
    let (mut owners, mut counts) = unowned(members, order, all);
    let mut shares: Vec<(usize, usize)> = Vec::new();
    let mut k: usize = 0;
    while k < order.len()
        invariant
            forall|k: int| 0 <= k < order@.len() ==> (#[trigger] order@[k]) < members@.len(),
            sorted == group::at_indices(group::members_of(members@), order@),
            sorted.len() == order@.len(),
            slots == group::slots_of(all@),
            k <= order@.len(),
            shares@.len() == k,
            forall|j: int|
                0 <= j < k ==> {
                    &&& (#[trigger] shares@[j]).0 == fair_share(slots, sorted, j)
                    &&& shares@[j].1 == left_over(slots, sorted, j)
                    &&& shares@[j].1 > 0 ==> shares@[j].0 < usize::MAX
                },
        decreases order@.len() - k,
    {
        let share = fair_share_of(members, order, all, k);
        shares.push(share);
        k = k + 1;
    }
    k = 0;
    while k < order.len()
        invariant
            forall|k: int| 0 <= k < order@.len() ==> (#[trigger] order@[k]) < members@.len(),
            views == group::members_of(members@),
            sorted == group::at_indices(views, order@),
            sorted.len() == order@.len(),
            slots == group::slots_of(all@),
            k <= order@.len(),
            owners@.len() == all@.len(),
            shared_out(shares@, slots, sorted),
            counted(counts@, group::owners_of(owners@), sorted),
            forall|i: int|
                0 <= i < owners@.len() ==> ((#[trigger] owners@[i]) matches Some(k) ==> k
                    < order@.len()),
            group::owners_of(owners@) == kept(slots, sorted, views, k as nat),
        decreases order@.len() - k,
    {
        keep_claims(members, order, all, &shares, &mut owners, &mut counts, k);
        k = k + 1;
    }
    feed(members, order, all, &mut owners, &mut counts);
    let ghost dealt_out = group::owners_of(owners@);
    let mut next: Option<(usize, usize)> = find_lopsided(members, order, all, &owners, &counts);
    while next.is_some()
        invariant
            forall|k: int| 0 <= k < order@.len() ==> (#[trigger] order@[k]) < members@.len(),
            views == group::members_of(members@),
            sorted == group::at_indices(views, order@),
            sorted.len() == order@.len(),
            slots == group::slots_of(all@),
            slots.len() == all@.len(),
            owners@.len() == all@.len(),
            group::owners_of(owners@).len() == all@.len(),
            counted(counts@, group::owners_of(owners@), sorted),
            forall|i: int|
                0 <= i < owners@.len() ==> ((#[trigger] owners@[i]) matches Some(k) ==> k
                    < order@.len()),
            levelled(slots, sorted, group::owners_of(owners@)) == levelled(
                slots,
                sorted,
                dealt_out,
            ),
            match next {
                Some((i, k)) => {
                    &&& i < all@.len()
                    &&& k < order@.len()
                    &&& owners@[i as int] is Some
                    &&& last_lopsided(slots, sorted, group::owners_of(owners@), slots.len())
                        == Some(i as int)
                    &&& fewest(
                        slots,
                        sorted,
                        group::owners_of(owners@),
                        slots[i as int].0,
                        sorted.len(),
                    ) == Some(k as int)
                },
                None => last_lopsided(slots, sorted, group::owners_of(owners@), slots.len())
                    is None,
            },
        decreases weight(slots, sorted, group::owners_of(owners@), slots.len()),
    {
        proof {
            lemma_handing_over_lightens(slots, sorted, group::owners_of(owners@));
        }
        if let Some((at, to)) = next {
            hand_over(members, order, &mut owners, &mut counts, at, to);
        }
        next = find_lopsided(members, order, all, &owners, &counts);
    }
    proof {
        lemma_level(slots, sorted, group::owners_of(owners@));
    }
    owners
}

/// Where nothing is lopsided, nobody holds two more than somebody else that wants the same.
pub(crate) proof fn lemma_level(
    all: Seq<(Seq<char>, i32)>,
    sorted: Seq<Member>,
    owners: Seq<Option<int>>,
)
    requires
        last_lopsided(all, sorted, owners, all.len()) is None,
    ensures
        level(all, sorted, owners),
{
    lemma_last_lopsided(all, sorted, owners, all.len());
    assert forall|i: int, k: int|
        0 <= i < all.len() && 0 <= k < sorted.len() && (#[trigger] owners[i]) is Some
            && group::wants(#[trigger] sorted[k], all[i].0) implies held(
        owners,
        sorted,
        sorted[owners[i].unwrap()].id,
        all.len(),
    ) <= held(owners, sorted, sorted[k].id, all.len()) + 1 by {
        assert(!lopsided(all, sorted, owners, i));
        lemma_fewest_is_least(all, sorted, owners, all[i].0, sorted.len(), k);
    }
}

proof fn lemma_held_nobody(owners: Seq<Option<int>>, sorted: Seq<Member>, id: Seq<char>, n: nat)
    requires
        n <= owners.len(),
        forall|j: int| 0 <= j < owners.len() ==> (#[trigger] owners[j]) is None,
    ensures
        held(owners, sorted, id, n) == 0,
    decreases n,
{
    if n > 0 {
        lemma_held_nobody(owners, sorted, id, (n - 1) as nat);
    }
}

pub(crate) proof fn lemma_fewest(
    all: Seq<(Seq<char>, i32)>,
    sorted: Seq<Member>,
    owners: Seq<Option<int>>,
    topic: Seq<char>,
    n: nat,
)
    requires
        n <= sorted.len(),
    ensures
        fewest(all, sorted, owners, topic, n) matches Some(k) ==> 0 <= k < n && group::wants(
            sorted[k],
            topic,
        ),
        (exists|k: int| 0 <= k < n && group::wants(#[trigger] sorted[k], topic)) ==> fewest(
            all,
            sorted,
            owners,
            topic,
            n,
        ) is Some,
    decreases n,
{
    if n > 0 {
        lemma_fewest(all, sorted, owners, topic, (n - 1) as nat);
    }
}

/// Nobody holds less than the one that is fed, and nobody ahead of it as little.
pub(crate) proof fn lemma_fewest_is_least(
    all: Seq<(Seq<char>, i32)>,
    sorted: Seq<Member>,
    owners: Seq<Option<int>>,
    topic: Seq<char>,
    n: nat,
    j: int,
)
    requires
        n <= sorted.len(),
        0 <= j < n,
        group::wants(sorted[j], topic),
    ensures
        fewest(all, sorted, owners, topic, n) matches Some(b) && 0 <= b < n && {
            let (mine, yours) = (
                held(owners, sorted, sorted[b].id, all.len()),
                held(owners, sorted, sorted[j].id, all.len()),
            );
            mine <= yours && (j < b ==> mine < yours)
        },
    decreases n,
{
    lemma_fewest(all, sorted, owners, topic, n);
    if j < n - 1 {
        lemma_fewest_is_least(all, sorted, owners, topic, (n - 1) as nat, j);
    } else {
        lemma_fewest(all, sorted, owners, topic, (n - 1) as nat);
    }
}

/// The highest generation is one that a member reports, and no member reports a higher one.
pub proof fn law_the_highest_generation_is_reported(members: Seq<Member>, n: nat)
    requires
        0 < n <= members.len(),
    ensures
        forall|i: int|
            0 <= i < n ==> (#[trigger] members[i]).generation <= highest_generation(members, n),
        exists|i: int|
            0 <= i < n && (#[trigger] members[i]).generation == highest_generation(members, n),
    decreases n,
{
    if n > 1 {
        law_the_highest_generation_is_reported(members, (n - 1) as nat);
        let before = highest_generation(members, (n - 1) as nat);
        if members[n - 1].generation <= before {
            let i = choose|i: int|
                0 <= i < n - 1 && (#[trigger] members[i]).generation == before;
            assert(members[i].generation == highest_generation(members, n));
        } else {
            assert(members[n - 1].generation == highest_generation(members, n));
        }
    } else {
        assert(members[0].generation == highest_generation(members, n));
    }
}

/// Of a member that reports the highest generation in the group, one that is not negative,
/// every claim is believed, and of any other none.
pub proof fn law_claims_of_the_highest_generation_are_believed(members: Seq<Member>, i: int)
    requires
        0 <= i < members.len(),
        forall|j: int| i < j < members.len() ==> (#[trigger] members[j]).id != members[i].id,
    ensures
        members[i].generation >= 0 && (forall|j: int|
            0 <= j < members.len() ==> (#[trigger] members[j]).generation <= members[i].generation)
            ==> live_claims_of(members, members[i].id) == members[i].owned,
        members[i].generation < 0 ==> live_claims_of(members, members[i].id).len() == 0,
        (exists|j: int|
            0 <= j < members.len() && (#[trigger] members[j]).generation > members[i].generation)
            ==> live_claims_of(members, members[i].id).len() == 0,
{
    law_the_highest_generation_is_reported(members, members.len());
    lemma_last_with_id(members, i, members.len());
    let highest = highest_generation(members, members.len());
    let top = choose|j: int| 0 <= j < members.len() && (#[trigger] members[j]).generation == highest;
    assert(members[top].generation == highest);
    assert(members[i].generation <= highest);
}

proof fn lemma_last_with_id(members: Seq<Member>, i: int, n: nat)
    requires
        0 <= i < n <= members.len(),
        forall|j: int| i < j < n ==> (#[trigger] members[j]).id != members[i].id,
    ensures
        last_with_id(members, members[i].id, n) == Some(members[i]),
    decreases n,
{
    if i < n - 1 {
        assert(members[n - 1].id != members[i].id);
        lemma_last_with_id(members, i, (n - 1) as nat);
    }
}

} // verus!
