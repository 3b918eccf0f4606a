//! What the sticky strategies promise: that everything is given out once, that everyone gets
//! its share, and that nothing moves without need.
use crate::assignor;
use crate::assignor::{
    Assignor, CooperativeStickyAssignor, RangeAssignor, RoundRobinAssignor, StickyAssignor,
};
use crate::group;
use crate::group::Member;
use crate::sticky;
use vstd::prelude::*;

verus! {

proof fn lemma_slot_index(all: Seq<(Seq<char>, i32)>, slot: (Seq<char>, i32), n: nat)
    requires
        n <= all.len(),
    ensures
        sticky::slot_index(all, slot, n) matches Some(i) ==> 0 <= i < n && all[i] == slot,
    decreases n,
{
    if n > 0 && all[n - 1] != slot {
        lemma_slot_index(all, slot, (n - 1) as nat);
    }
}

proof fn lemma_keep_apt(
    all: Seq<(Seq<char>, i32)>,
    sorted: Seq<Member>,
    owners: Seq<Option<int>>,
    k: int,
    claims: Seq<(Seq<char>, i32)>,
    n: nat,
)
    requires
        assignor::apt(all, owners, sorted),
        0 <= k < sorted.len(),
        n <= claims.len(),
    ensures
        assignor::apt(all, sticky::keep(all, sorted, owners, k, claims, n), sorted),
    decreases n,
{
    if n > 0 {
        lemma_keep_apt(all, sorted, owners, k, claims, (n - 1) as nat);
        lemma_slot_index(all, claims[n - 1], all.len());
    }
}

proof fn lemma_kept_apt(
    all: Seq<(Seq<char>, i32)>,
    sorted: Seq<Member>,
    members: Seq<Member>,
    n: nat,
)
    requires
        n <= sorted.len(),
    ensures
        assignor::apt(all, sticky::kept(all, sorted, members, n), sorted),
    decreases n,
{
    if n > 0 {
        lemma_kept_apt(all, sorted, members, (n - 1) as nat);
        let claims = sticky::live_claims_of(members, sorted[n - 1].id);
        lemma_keep_apt(
            all,
            sorted,
            sticky::kept(all, sorted, members, (n - 1) as nat),
            n - 1,
            claims,
            claims.len(),
        );
    }
}

proof fn lemma_fed_apt(
    all: Seq<(Seq<char>, i32)>,
    sorted: Seq<Member>,
    owners: Seq<Option<int>>,
    n: nat,
)
    requires
        n <= all.len(),
        assignor::apt(all, owners, sorted),
    ensures
        assignor::apt(all, sticky::fed(all, sorted, owners, n), sorted),
        forall|i: int|
            0 <= i < n && assignor::somebody_wants(sorted, all[i].0) ==> (#[trigger] sticky::fed(
                all,
                sorted,
                owners,
                n,
            )[i]) is Some,
        forall|i: int|
            0 <= i < all.len() && (#[trigger] owners[i]) is Some ==> sticky::fed(
                all,
                sorted,
                owners,
                n,
            )[i] == owners[i],
    decreases n,
{
    if n > 0 {
        lemma_fed_apt(all, sorted, owners, (n - 1) as nat);
        let so_far = sticky::fed(all, sorted, owners, (n - 1) as nat);
        sticky::lemma_fewest(all, sorted, so_far, all[n - 1].0, sorted.len());
    }
}

proof fn lemma_sticky_apt(all: Seq<(Seq<char>, i32)>, members: Seq<Member>)
    ensures
        assignor::apt(all, sticky::sticky_owners(all, members), group::ordered(members)),
        assignor::complete(all, sticky::sticky_owners(all, members), group::ordered(members)),
        sticky::level(all, group::ordered(members), sticky::sticky_owners(all, members)),
{
    let sorted = group::ordered(members);
    let start = sticky::kept(all, sorted, members, sorted.len());
    lemma_as_claimed_apt(all, sorted, members);
    lemma_fed_apt(all, sorted, sticky::as_claimed(all, sorted, members), all.len());
    lemma_kept_apt(all, sorted, members, sorted.len());
    lemma_fed_apt(all, sorted, start, all.len());
    lemma_levelled(all, sorted, sticky::fed(all, sorted, start, all.len()));
}

proof fn lemma_claimant(
    members: Seq<Member>,
    sorted: Seq<Member>,
    slot: (Seq<char>, i32),
    n: nat,
)
    requires
        n <= sorted.len(),
    ensures
        match sticky::claimant(members, sorted, slot, n) {
            Some(k) => 0 <= k < n && group::wants(sorted[k], slot.0) && sticky::live_claims_of(
                members,
                sorted[k].id,
            ).contains(slot),
            None => forall|k: int|
                0 <= k < n && group::wants(#[trigger] sorted[k], slot.0) ==> !sticky::live_claims_of(
                    members,
                    sorted[k].id,
                ).contains(slot),
        },
    decreases n,
{
    if n > 0 {
        lemma_claimant(members, sorted, slot, (n - 1) as nat);
    }
}

proof fn lemma_as_claimed_apt(
    all: Seq<(Seq<char>, i32)>,
    sorted: Seq<Member>,
    members: Seq<Member>,
)
    ensures
        assignor::apt(all, sticky::as_claimed(all, sorted, members), sorted),
{
    let owners = sticky::as_claimed(all, sorted, members);
    assert forall|i: int| 0 <= i < owners.len() implies ((#[trigger] owners[i]) matches Some(k)
        ==> 0 <= k < sorted.len() && group::wants(sorted[k], all[i].0)) by {
        lemma_claimant(members, sorted, all[i], sorted.len());
    }
}

/// Evening out leaves every owned partition with an owner that wants it, and nobody with two
/// more than somebody else that wants the same.
proof fn lemma_levelled(
    all: Seq<(Seq<char>, i32)>,
    sorted: Seq<Member>,
    owners: Seq<Option<int>>,
)
    requires
        assignor::apt(all, owners, sorted),
    ensures
        assignor::apt(all, sticky::levelled(all, sorted, owners), sorted),
        sticky::level(all, sorted, sticky::levelled(all, sorted, owners)),
        forall|i: int|
            0 <= i < all.len() ==> (#[trigger] sticky::levelled(all, sorted, owners)[i]) is Some
                == owners[i] is Some,
    decreases sticky::weight(all, sorted, owners, all.len()),
{
    sticky::lemma_last_lopsided(all, sorted, owners, all.len());
    match sticky::last_lopsided(all, sorted, owners, all.len()) {
        None => sticky::lemma_level(all, sorted, owners),
        Some(i) => {
            let topic = all[i].0;
            sticky::lemma_fewest(all, sorted, owners, topic, sorted.len());
            sticky::lemma_handing_over_lightens(all, sorted, owners);
            let next = owners.update(i, sticky::fewest(all, sorted, owners, topic, sorted.len()));
            lemma_levelled(all, sorted, next);
            assert forall|j: int| 0 <= j < all.len() implies (#[trigger] sticky::levelled(
                all,
                sorted,
                owners,
            )[j]) is Some == owners[j] is Some by {
                assert(sticky::levelled(all, sorted, next)[j] is Some == next[j] is Some);
            }
        },
    }
}

/// `sticky` gives every partition of a subscribed topic to exactly one member.
pub proof fn law_sticky_assigns_exactly_once(members: Seq<Member>, topics: Seq<(Seq<char>, i32)>)
    requires
        group::ascending(topics),
    ensures
        assignor::never_twice(StickyAssignor.decides(members, topics), members, topics),
        assignor::all_given(StickyAssignor.decides(members, topics), members, topics),
{
    let all = group::every_slot(topics);
    lemma_sticky_apt(all, members);
    assignor::lemma_owners_decide(topics, sticky::sticky_owners(all, members), members);
}

/// `cooperative-sticky` gives no partition twice, and none that another member still
/// holds: a partition that must move is given to neither member in this round. What
/// nobody else holds goes where `sticky` would put it.
pub proof fn law_cooperative_withholds_what_must_move(
    members: Seq<Member>,
    topics: Seq<(Seq<char>, i32)>,
    id: Seq<char>,
    slot: (Seq<char>, i32),
)
    requires
        group::ascending(topics),
        group::has_id(members, id),
    ensures
        assignor::never_twice(CooperativeStickyAssignor.decides(members, topics), members, topics),
        ({
            let target = StickyAssignor.decides(members, topics)[id];
            let granted = CooperativeStickyAssignor.decides(members, topics)[id];
            let holder = assignor::current_owner(members, slot, members.len());
            granted.contains(slot) <==> target.contains(slot) && (holder is None || holder == Some(
                id,
            ))
        }),
{
    let all = group::every_slot(topics);
    let sorted = group::ordered(members);
    let target = sticky::sticky_owners(all, members);
    let owners = assignor::published_owners(all, members);
    lemma_sticky_apt(all, members);
    assert forall|i: int| 0 <= i < owners.len() implies ((#[trigger] owners[i]) matches Some(k)
        ==> 0 <= k < sorted.len() && group::wants(sorted[k], all[i].0)) by {
        assert(target[i] is None || target[i] == owners[i] || owners[i] is None);
    }
    assignor::lemma_owners_decide(topics, owners, members);
    group::lemma_same_ids(members, id);
    assignor::lemma_share_contains(all, target, sorted, id, all.len(), slot);
    assignor::lemma_share_contains(all, owners, sorted, id, all.len(), slot);
    let holder = assignor::current_owner(members, slot, members.len());
    if group::share(all, owners, sorted, id, all.len()).contains(slot) {
        let i = choose|i: int|
            0 <= i < all.len() && #[trigger] all[i] == slot && owners[i] is Some
                && sorted[owners[i].unwrap()].id == id;
        assert(target[i] == owners[i]);
    }
    if group::share(all, target, sorted, id, all.len()).contains(slot) && (holder is None || holder
        == Some(id)) {
        let i = choose|i: int|
            0 <= i < all.len() && #[trigger] all[i] == slot && target[i] is Some
                && sorted[target[i].unwrap()].id == id;
        assert(owners[i] == target[i]);
    }
}

/// A claim from below the highest generation in the group is not believed: such a
/// member starts from nothing.
pub proof fn law_a_stale_claim_is_not_believed(members: Seq<Member>, stale: int, current: int)
    requires
        0 <= stale < members.len(),
        0 <= current < members.len(),
        members[stale].generation < members[current].generation,
        forall|k: int| 0 <= k < members.len() && k != stale ==> (#[trigger] members[k]).id
            != members[stale].id,
    ensures
        sticky::live_claims_of(members, members[stale].id) == Seq::<(Seq<char>, i32)>::empty(),
{
    lemma_highest(members, members.len(), current);
    lemma_last_with_id(members, stale, members.len());
}

proof fn lemma_highest(members: Seq<Member>, n: nat, k: int)
    requires
        n <= members.len(),
        0 <= k < n,
    ensures
        sticky::highest_generation(members, n) >= members[k].generation,
    decreases n,
{
    if k < n - 1 {
        lemma_highest(members, (n - 1) as nat, k);
    }
}

proof fn lemma_last_with_id(members: Seq<Member>, k: int, n: nat)
    requires
        0 <= k < n <= members.len(),
        forall|j: int| 0 <= j < members.len() && j != k ==> (#[trigger] members[j]).id
            != members[k].id,
    ensures
        sticky::last_with_id(members, members[k].id, n) == Some(members[k]),
    decreases n,
{
    if k < n - 1 {
        lemma_last_with_id(members, k, (n - 1) as nat);
    }
}

proof fn lemma_slot_index_found(all: Seq<(Seq<char>, i32)>, slot: (Seq<char>, i32), n: nat)
    requires
        n <= all.len(),
        all.take(n as int).contains(slot),
    ensures
        sticky::slot_index(all, slot, n) is Some,
    decreases n,
{
    if n > 0 && all[n - 1] != slot {
        let part = all.take(n as int);
        let i = choose|i: int| 0 <= i < part.len() && part[i] == slot;
        assert(all.take(n - 1)[i] == slot);
        lemma_slot_index_found(all, slot, (n - 1) as nat);
    }
}

/// Keeping claims changes only unowned partitions among them.
proof fn lemma_keep_only_claims(
    all: Seq<(Seq<char>, i32)>,
    sorted: Seq<Member>,
    owners: Seq<Option<int>>,
    k: int,
    claims: Seq<(Seq<char>, i32)>,
    n: nat,
    i: int,
)
    requires
        owners.len() == all.len(),
        0 <= i < all.len(),
        n <= claims.len(),
        owners[i] is Some || !claims.contains(all[i]),
    ensures
        sticky::keep(all, sorted, owners, k, claims, n).len() == owners.len(),
        sticky::keep(all, sorted, owners, k, claims, n)[i] == owners[i],
    decreases n,
{
    if n > 0 {
        lemma_keep_only_claims(all, sorted, owners, k, claims, (n - 1) as nat, i);
        lemma_slot_index(all, claims[n - 1], all.len());
        assert(claims.contains(claims[n - 1]));
    }
}

/// A member that holds nothing yet keeps the first `n` of its claims, if they are no more than
/// it may keep, exist, are unowned and of topics that it wants.
proof fn lemma_keep_all(
    all: Seq<(Seq<char>, i32)>,
    sorted: Seq<Member>,
    owners: Seq<Option<int>>,
    k: int,
    claims: Seq<(Seq<char>, i32)>,
    n: nat,
)
    requires
        all.no_duplicates(),
        owners.len() == all.len(),
        0 <= k < sorted.len(),
        n <= claims.len(),
        n <= sticky::quota(all, sorted, owners, k),
        claims.no_duplicates(),
        sticky::held(owners, sorted, sorted[k].id, all.len()) == 0,
        forall|c: int|
            0 <= c < claims.len() ==> all.contains(#[trigger] claims[c]) && group::wants(
                sorted[k],
                claims[c].0,
            ),
        forall|i: int|
            0 <= i < all.len() && claims.contains(#[trigger] all[i]) ==> owners[i] is None,
    ensures
        ({
            let now = sticky::keep(all, sorted, owners, k, claims, n);
            &&& now.len() == owners.len()
            &&& sticky::held(now, sorted, sorted[k].id, all.len()) == n
            &&& forall|c: int, i: int|
                0 <= c < n && 0 <= i < all.len() && #[trigger] all[i] == #[trigger] claims[c]
                    ==> now[i] == Some(k)
            &&& forall|i: int|
                0 <= i < all.len() && !claims.take(n as int).contains(#[trigger] all[i]) ==> now[i]
                    == owners[i]
        }),
    decreases n,
{
    if n > 0 {
        lemma_keep_all(all, sorted, owners, k, claims, (n - 1) as nat);
        let so_far = sticky::keep(all, sorted, owners, k, claims, (n - 1) as nat);
        let slot = claims[n - 1];
        assert(all.contains(slot));
        assert(all.take(all.len() as int) =~= all);
        lemma_slot_index_found(all, slot, all.len());
        lemma_slot_index(all, slot, all.len());
        let at = sticky::slot_index(all, slot, all.len()).unwrap();
        let earlier = claims.take(n - 1);
        if earlier.contains(all[at]) {
            let c = choose|c: int| 0 <= c < earlier.len() && earlier[c] == all[at];
            assert(claims[c] == claims[n - 1]);
        }
        assert(claims.contains(all[at]));
        assert(so_far[at] is None);
        let now = sticky::keep(all, sorted, owners, k, claims, n);
        assert(now == so_far.update(at, Some(k)));
        sticky::lemma_held_update(so_far, sorted, sorted[k].id, at, k, all.len());
        assert forall|i: int|
            0 <= i < all.len() && !claims.take(n as int).contains(#[trigger] all[i]) implies now[i]
            == owners[i] by {
            let longer = claims.take(n as int);
            assert(longer[n - 1] == all[at]);
            assert(i != at);
            if earlier.contains(all[i]) {
                let c = choose|c: int| 0 <= c < earlier.len() && earlier[c] == all[i];
                assert(longer[c] == all[i]);
            }
        }
    } else {
        assert(claims.take(0) =~= Seq::empty());
    }
}

proof fn lemma_not_held(
    all: Seq<(Seq<char>, i32)>,
    sorted: Seq<Member>,
    members: Seq<Member>,
    k: int,
    n: nat,
    at: nat,
)
    requires
        n <= k < sorted.len(),
        at <= all.len(),
        forall|i: int, j: int|
            0 <= i < j < sorted.len() ==> (#[trigger] sorted[i]).id != (#[trigger] sorted[j]).id,
    ensures
        sticky::held(sticky::kept(all, sorted, members, n), sorted, sorted[k].id, at) == 0,
    decreases at,
{
    lemma_kept_places(all, sorted, members, n);
    if at > 0 {
        lemma_not_held(all, sorted, members, k, n, (at - 1) as nat);
        let owner = sticky::kept(all, sorted, members, n)[at - 1];
        if let Some(o) = owner {
            assert(0 <= o < n);
        }
    }
}

/// What the first `n` members have kept belongs to them.
proof fn lemma_kept_places(
    all: Seq<(Seq<char>, i32)>,
    sorted: Seq<Member>,
    members: Seq<Member>,
    n: nat,
)
    requires
        n <= sorted.len(),
    ensures
        sticky::kept(all, sorted, members, n).len() == all.len(),
        forall|i: int|
            0 <= i < all.len() ==> ((#[trigger] sticky::kept(all, sorted, members, n)[i]) matches Some(o)
                ==> 0 <= o < n),
    decreases n,
{
    if n > 0 {
        lemma_kept_places(all, sorted, members, (n - 1) as nat);
        let claims = sticky::live_claims_of(members, sorted[n - 1].id);
        lemma_keep_places(
            all,
            sorted,
            sticky::kept(all, sorted, members, (n - 1) as nat),
            n - 1,
            claims,
            claims.len(),
        );
    }
}

proof fn lemma_keep_places(
    all: Seq<(Seq<char>, i32)>,
    sorted: Seq<Member>,
    owners: Seq<Option<int>>,
    k: int,
    claims: Seq<(Seq<char>, i32)>,
    n: nat,
)
    requires
        0 <= k,
        owners.len() == all.len(),
        forall|i: int|
            0 <= i < all.len() ==> ((#[trigger] owners[i]) matches Some(o) ==> 0 <= o < k),
    ensures
        sticky::keep(all, sorted, owners, k, claims, n).len() == all.len(),
        forall|i: int|
            0 <= i < all.len() ==> ((#[trigger] sticky::keep(all, sorted, owners, k, claims, n)[i])
                matches Some(o) ==> 0 <= o <= k),
    decreases n,
{
    if n > 0 {
        lemma_keep_places(all, sorted, owners, k, claims, (n - 1) as nat);
        lemma_slot_index(all, claims[n - 1], all.len());
    }
}

/// Members that come later leave alone what they do not claim.
proof fn lemma_kept_grows(
    all: Seq<(Seq<char>, i32)>,
    sorted: Seq<Member>,
    members: Seq<Member>,
    from: nat,
    to: nat,
    i: int,
)
    requires
        from <= to <= sorted.len(),
        0 <= i < all.len(),
        sticky::kept(all, sorted, members, from)[i] is Some || forall|j: int|
            from <= j < to ==> !sticky::live_claims_of(members, (#[trigger] sorted[j]).id).contains(all[i]),
    ensures
        sticky::kept(all, sorted, members, to)[i] == sticky::kept(all, sorted, members, from)[i],
    decreases to - from,
{
    if from < to {
        lemma_kept_grows(all, sorted, members, from, (to - 1) as nat, i);
        lemma_kept_places(all, sorted, members, (to - 1) as nat);
        let claims = sticky::live_claims_of(members, sorted[to - 1].id);
        lemma_keep_only_claims(
            all,
            sorted,
            sticky::kept(all, sorted, members, (to - 1) as nat),
            to - 1,
            claims,
            claims.len(),
            i,
        );
    }
}

/// A member keeps everything it validly holds and nobody else claims, where everyone can keep
/// all of that. Otherwise it keeps the first of its claims: as many as its fair share, and one
/// more while something is left over, if all members want the same topics, or nothing has to be
/// evened out between them.
pub proof fn law_sticky_keeps_what_is_still_valid(
    members: Seq<Member>,
    topics: Seq<(Seq<char>, i32)>,
    k: int,
    c: int,
)
    requires
        group::ascending(topics),
        group::ids_differ(members),
        0 <= k < members.len(),
        ({
            let sorted = group::ordered(members);
            let all = group::every_slot(topics);
            let claims = sticky::live_claims_of(members, sorted[k].id);
            let before = sticky::kept(all, sorted, members, k as nat);
            let start = sticky::kept(all, sorted, members, sorted.len());
            &&& 0 <= c < claims.len()
            &&& sticky::level(all, sorted, sticky::undisturbed(all, members)) || {
                &&& c < sticky::quota(all, sorted, before, k)
                &&& same_interest(members) || sticky::level(
                    all,
                    sorted,
                    sticky::fed(all, sorted, start, all.len()),
                )
            }
            &&& claims.no_duplicates()
            &&& forall|d: int|
                0 <= d < claims.len() ==> all.contains(#[trigger] claims[d]) && group::wants(
                    sorted[k],
                    claims[d].0,
                )
            &&& forall|d: int, j: int|
                0 <= d < claims.len() && 0 <= j < sorted.len() && j != k ==> !sticky::live_claims_of(
                    members,
                    (#[trigger] sorted[j]).id,
                ).contains(#[trigger] claims[d])
        }),
    ensures
        ({
            let id = group::ordered(members)[k].id;
            StickyAssignor.decides(members, topics)[id].contains(
                sticky::live_claims_of(members, id)[c],
            )
        }),
{
    let sorted = group::ordered(members);
    let all = group::every_slot(topics);
    let id = sorted[k].id;
    let claims = sticky::live_claims_of(members, id);
    let slot = claims[c];
    let owners = sticky::sticky_owners(all, members);
    group::law_members_are_ordered(members, members.len());
    group::lemma_ordered_ids_differ(members);
    let i = choose|i: int| 0 <= i < all.len() && all[i] == slot;
    assert(owners[i] == Some(k)) by {
        if sticky::level(all, sorted, sticky::undisturbed(all, members)) {
            lemma_claimant(members, sorted, slot, sorted.len());
            assert(claims.contains(slot));
            assert(group::wants(sorted[k], slot.0));
            if let Some(j) = sticky::claimant(members, sorted, slot, sorted.len()) {
                if j != k {
                    assert(!sticky::live_claims_of(members, sorted[j].id).contains(claims[c]));
                }
            }
            let current = sticky::as_claimed(all, sorted, members);
            assert(current[i] == Some(k));
            lemma_as_claimed_apt(all, sorted, members);
            lemma_fed_apt(all, sorted, current, all.len());
        } else {
            assignor::lemma_slots_distinct(topics, topics.len());
            if same_interest(members) {
                lemma_dealt_is_even(all, members);
                let start = sticky::kept(all, sorted, members, sorted.len());
                sticky::lemma_level(all, sorted, sticky::fed(all, sorted, start, all.len()));
            }
            lemma_within_quota_is_kept(all, members, k, c, i);
        }
    }
    assert(group::has_id(sorted, id));
    assignor::lemma_share_contains(all, owners, sorted, id, all.len(), slot);
}

/// A member that holds as many partitions as it may keeps no more.
proof fn lemma_keep_stops(
    all: Seq<(Seq<char>, i32)>,
    sorted: Seq<Member>,
    owners: Seq<Option<int>>,
    k: int,
    claims: Seq<(Seq<char>, i32)>,
    m: nat,
    n: nat,
)
    requires
        m <= n,
        m == n || sticky::held(
            sticky::keep(all, sorted, owners, k, claims, m),
            sorted,
            sorted[k].id,
            all.len(),
        ) >= sticky::quota(all, sorted, owners, k),
    ensures
        sticky::keep(all, sorted, owners, k, claims, n) == sticky::keep(
            all,
            sorted,
            owners,
            k,
            claims,
            m,
        ),
    decreases n,
{
    if m < n {
        lemma_keep_stops(all, sorted, owners, k, claims, m, (n - 1) as nat);
    }
}

/// A member keeps as many of its claims as it may, the first ones, while the rest is dealt out.
proof fn lemma_within_quota_is_kept(
    all: Seq<(Seq<char>, i32)>,
    members: Seq<Member>,
    k: int,
    c: int,
    i: int,
)
    requires
        all.no_duplicates(),
        0 <= k < group::ordered(members).len(),
        forall|i: int, j: int|
            0 <= i < j < group::ordered(members).len() ==> (#[trigger] group::ordered(
                members,
            )[i]).id != (#[trigger] group::ordered(members)[j]).id,
        ({
            let sorted = group::ordered(members);
            let claims = sticky::live_claims_of(members, sorted[k].id);
            let before = sticky::kept(all, sorted, members, k as nat);
            let start = sticky::kept(all, sorted, members, sorted.len());
            &&& 0 <= c < claims.len()
            &&& 0 <= i < all.len()
            &&& all[i] == claims[c]
            &&& c < sticky::quota(all, sorted, before, k)
            &&& sticky::level(all, sorted, sticky::fed(all, sorted, start, all.len()))
            &&& claims.no_duplicates()
            &&& forall|d: int|
                0 <= d < claims.len() ==> all.contains(#[trigger] claims[d]) && group::wants(
                    sorted[k],
                    claims[d].0,
                )
            &&& forall|d: int, j: int|
                0 <= d < claims.len() && 0 <= j < sorted.len() && j != k ==> !sticky::live_claims_of(
                    members,
                    (#[trigger] sorted[j]).id,
                ).contains(#[trigger] claims[d])
        }),
    ensures
        ({
            let sorted = group::ordered(members);
            let start = sticky::kept(all, sorted, members, sorted.len());
            sticky::levelled(all, sorted, sticky::fed(all, sorted, start, all.len()))[i] == Some(k)
        }),
{
    let sorted = group::ordered(members);
    let claims = sticky::live_claims_of(members, sorted[k].id);
    let before = sticky::kept(all, sorted, members, k as nat);
    let start = sticky::kept(all, sorted, members, sorted.len());
    lemma_kept_places(all, sorted, members, k as nat);
    lemma_not_held(all, sorted, members, k, k as nat, all.len());
    assert forall|x: int| 0 <= x < all.len() && claims.contains(#[trigger] all[x]) implies before[x]
        is None by {
        let d = choose|d: int| 0 <= d < claims.len() && claims[d] == all[x];
        assert forall|j: int| 0 <= j < k implies !sticky::live_claims_of(
            members,
            (#[trigger] sorted[j]).id,
        ).contains(all[x]) by {
            assert(!sticky::live_claims_of(members, sorted[j].id).contains(claims[d]));
        }
        lemma_kept_grows(all, sorted, members, 0, k as nat, x);
    }
    let most = sticky::quota(all, sorted, before, k);
    let n: nat = if claims.len() <= most {
        claims.len()
    } else {
        most as nat
    };
    lemma_keep_all(all, sorted, before, k, claims, n);
    lemma_keep_stops(all, sorted, before, k, claims, n, claims.len());
    assert(sticky::kept(all, sorted, members, (k + 1) as nat)[i] == Some(k)) by {
        assert(all[i] == claims[c]);
    }
    lemma_kept_grows(all, sorted, members, (k + 1) as nat, sorted.len(), i);
    lemma_kept_apt(all, sorted, members, sorted.len());
    lemma_fed_apt(all, sorted, start, all.len());
    sticky::lemma_level_is_not_lopsided(all, sorted, sticky::fed(all, sorted, start, all.len()));
}

proof fn lemma_highest_is_somebodys(members: Seq<Member>, n: nat)
    requires
        0 < n <= members.len(),
    ensures
        exists|k: int| 0 <= k < n && (#[trigger] members[k]).generation == sticky::highest_generation(
            members,
            n,
        ),
    decreases n,
{
    if n > 1 && members[n - 1].generation <= sticky::highest_generation(members, (n - 1) as nat) {
        lemma_highest_is_somebodys(members, (n - 1) as nat);
    } else {
        assert(members[n - 1].generation == sticky::highest_generation(members, n));
    }
}

proof fn lemma_highest_order_is_free(one: Seq<Member>, other: Seq<Member>)
    requires
        group::same_members(one, other),
    ensures
        sticky::highest_generation(one, one.len()) <= sticky::highest_generation(other, other.len()),
{
    if one.len() > 0 {
        lemma_highest_is_somebodys(one, one.len());
        let k = choose|k: int|
            0 <= k < one.len() && (#[trigger] one[k]).generation == sticky::highest_generation(
                one,
                one.len(),
            );
        assert(one.contains(one[k]));
        assert(other.contains(one[k]));
        let j = choose|j: int| 0 <= j < other.len() && other[j] == one[k];
        lemma_highest(other, other.len(), j);
    }
}

proof fn lemma_found_with_id(members: Seq<Member>, id: Seq<char>, n: nat)
    requires
        n <= members.len(),
    ensures
        match sticky::last_with_id(members, id, n) {
            Some(m) => m.id == id && members.contains(m),
            None => forall|k: int| 0 <= k < n ==> (#[trigger] members[k]).id != id,
        },
    decreases n,
{
    if n > 0 {
        if members[n - 1].id == id {
            assert(members.contains(members[n - 1]));
        } else {
            lemma_found_with_id(members, id, (n - 1) as nat);
        }
    }
}

proof fn lemma_live_claims_order_is_free(one: Seq<Member>, other: Seq<Member>, id: Seq<char>)
    requires
        group::same_members(one, other),
    ensures
        sticky::live_claims_of(one, id) == sticky::live_claims_of(other, id),
{
    lemma_highest_order_is_free(one, other);
    lemma_highest_order_is_free(other, one);
    lemma_found_with_id(one, id, one.len());
    lemma_found_with_id(other, id, other.len());
    match (sticky::last_with_id(one, id, one.len()), sticky::last_with_id(other, id, other.len())) {
        (Some(a), Some(b)) => {
            assert(other.contains(a));
            let i = choose|i: int| 0 <= i < other.len() && other[i] == a;
            let j = choose|j: int| 0 <= j < other.len() && other[j] == b;
            assert(i == j);
        },
        (Some(a), None) => {
            assert(other.contains(a));
            let i = choose|i: int| 0 <= i < other.len() && other[i] == a;
            assert(other[i].id != id);
        },
        (None, Some(b)) => {
            assert(one.contains(b));
            let j = choose|j: int| 0 <= j < one.len() && one[j] == b;
            assert(one[j].id != id);
        },
        (None, None) => {},
    }
}

proof fn lemma_kept_order_is_free(
    all: Seq<(Seq<char>, i32)>,
    sorted: Seq<Member>,
    one: Seq<Member>,
    other: Seq<Member>,
    n: nat,
)
    requires
        group::same_members(one, other),
    ensures
        sticky::kept(all, sorted, one, n) == sticky::kept(all, sorted, other, n),
    decreases n,
{
    if n > 0 {
        lemma_kept_order_is_free(all, sorted, one, other, (n - 1) as nat);
        lemma_live_claims_order_is_free(one, other, sorted[n - 1].id);
    }
}

proof fn lemma_claimant_order_is_free(
    sorted: Seq<Member>,
    one: Seq<Member>,
    other: Seq<Member>,
    slot: (Seq<char>, i32),
    n: nat,
)
    requires
        group::same_members(one, other),
    ensures
        sticky::claimant(one, sorted, slot, n) == sticky::claimant(other, sorted, slot, n),
    decreases n,
{
    if n > 0 {
        lemma_claimant_order_is_free(sorted, one, other, slot, (n - 1) as nat);
        lemma_live_claims_order_is_free(one, other, sorted[n - 1].id);
    }
}

proof fn lemma_sticky_order_is_free(
    all: Seq<(Seq<char>, i32)>,
    one: Seq<Member>,
    other: Seq<Member>,
)
    requires
        group::same_members(one, other),
    ensures
        group::ordered(one) == group::ordered(other),
        sticky::sticky_owners(all, one) == sticky::sticky_owners(all, other),
{
    let sorted = group::ordered(one);
    group::law_the_order_of_members_is_free(one, other);
    lemma_kept_order_is_free(all, sorted, one, other, sorted.len());
    assert forall|i: int| 0 <= i < all.len() implies #[trigger] sticky::claimant(
        one,
        sorted,
        all[i],
        sorted.len(),
    ) == sticky::claimant(other, sorted, all[i], sorted.len()) by {
        lemma_claimant_order_is_free(sorted, one, other, all[i], sorted.len());
    }
    assert(sticky::as_claimed(all, sorted, one) =~= sticky::as_claimed(all, sorted, other));
}

/// In whatever order the members arrive, `range`, `roundrobin` and `sticky` reach the same
/// answer: every member that runs the strategy agrees with the leader.
pub proof fn law_every_leader_reaches_the_same_answer(
    one: Seq<Member>,
    other: Seq<Member>,
    topics: Seq<(Seq<char>, i32)>,
)
    requires
        group::same_members(one, other),
    ensures
        RangeAssignor.decides(one, topics) == RangeAssignor.decides(other, topics),
        RoundRobinAssignor.decides(one, topics) == RoundRobinAssignor.decides(other, topics),
        StickyAssignor.decides(one, topics) == StickyAssignor.decides(other, topics),
{
    lemma_sticky_order_is_free(group::every_slot(topics), one, other);
}

proof fn lemma_owner_order_is_free(
    one: Seq<Member>,
    other: Seq<Member>,
    slot: (Seq<char>, i32),
)
    requires
        group::same_members(one, other),
        forall|i: int, j: int|
            0 <= i < one.len() && 0 <= j < one.len() && (#[trigger] one[i]).owned.contains(slot)
                && (#[trigger] one[j]).owned.contains(slot) ==> i == j,
    ensures
        assignor::current_owner(one, slot, one.len()) == assignor::current_owner(other, slot, other.len()),
{
    lemma_holder(one, slot, one.len());
    lemma_holder(other, slot, other.len());
    match (assignor::current_owner(one, slot, one.len()), assignor::current_owner(other, slot, other.len())) {
        (Some(a), Some(b)) => {
            let i = choose|i: int|
                0 <= i < one.len() && (#[trigger] one[i]).id == a && one[i].owned.contains(slot);
            let j = choose|j: int|
                0 <= j < other.len() && (#[trigger] other[j]).id == b && other[j].owned.contains(
                    slot,
                );
            assert(other.contains(other[j]) && one.contains(other[j]));
            let k = choose|k: int| 0 <= k < one.len() && one[k] == other[j];
            assert(one[k].owned.contains(slot));
            assert(k == i);
        },
        (Some(a), None) => {
            let i = choose|i: int|
                0 <= i < one.len() && (#[trigger] one[i]).id == a && one[i].owned.contains(slot);
            assert(one.contains(one[i]));
            assert(other.contains(one[i]));
            let k = choose|k: int| 0 <= k < other.len() && other[k] == one[i];
            assert(!other[k].owned.contains(slot));
        },
        (None, Some(b)) => {
            let j = choose|j: int|
                0 <= j < other.len() && (#[trigger] other[j]).id == b && other[j].owned.contains(
                    slot,
                );
            assert(other.contains(other[j]) && one.contains(other[j]));
            let k = choose|k: int| 0 <= k < one.len() && one[k] == other[j];
            assert(!one[k].owned.contains(slot));
        },
        (None, None) => {},
    }
}

proof fn lemma_holder(members: Seq<Member>, slot: (Seq<char>, i32), n: nat)
    requires
        n <= members.len(),
    ensures
        match assignor::current_owner(members, slot, n) {
            Some(id) => exists|k: int|
                0 <= k < members.len() && (#[trigger] members[k]).id == id
                    && members[k].owned.contains(slot),
            None => forall|k: int| 0 <= k < n ==> !(#[trigger] members[k]).owned.contains(slot),
        },
    decreases n,
{
    if n > 0 {
        if members[n - 1].owned.contains(slot) {
            assert(members[n - 1].id == members[n - 1].id);
        } else {
            lemma_holder(members, slot, (n - 1) as nat);
        }
    }
}

/// `cooperative-sticky` does so too, where no two members claim the same partition: of two
/// claims it goes by the one that arrived last.
pub proof fn law_cooperative_leaders_agree_on_undisputed_claims(
    one: Seq<Member>,
    other: Seq<Member>,
    topics: Seq<(Seq<char>, i32)>,
)
    requires
        group::same_members(one, other),
        forall|i: int, j: int, slot: (Seq<char>, i32)|
            0 <= i < one.len() && 0 <= j < one.len() && #[trigger] one[i].owned.contains(slot)
                && #[trigger] one[j].owned.contains(slot) ==> i == j,
    ensures
        CooperativeStickyAssignor.decides(one, topics) == CooperativeStickyAssignor.decides(
            other,
            topics,
        ),
{
    let all = group::every_slot(topics);
    lemma_sticky_order_is_free(all, one, other);
    assert forall|i: int| 0 <= i < all.len() implies #[trigger] assignor::current_owner(
        one,
        all[i],
        one.len(),
    ) == assignor::current_owner(other, all[i], other.len()) by {
        lemma_owner_order_is_free(one, other, all[i]);
    }
    assert(assignor::published_owners(all, one) =~= assignor::published_owners(all, other));
}

proof fn lemma_shares_are_counts(all: Seq<(Seq<char>, i32)>, sorted: Seq<Member>, k: int)
    ensures
        sticky::fair_share(all, sorted, k) >= 0,
        sticky::left_over(all, sorted, k) >= 0,
{
    let wanted = sticky::wanted_count(all, sorted[k], all.len()) as int;
    vstd::arithmetic::div_mod::lemma_div_pos_is_pos(wanted, sticky::sharers(sorted, k));
    vstd::arithmetic::div_mod::lemma_mod_bound(wanted, sticky::sharers(sorted, k));
}

/// Keeping changes nothing for the others, and gives a member no more than it may keep.
proof fn lemma_keep_is_bounded(
    all: Seq<(Seq<char>, i32)>,
    sorted: Seq<Member>,
    owners: Seq<Option<int>>,
    k: int,
    claims: Seq<(Seq<char>, i32)>,
    n: nat,
    id: Seq<char>,
)
    requires
        owners.len() == all.len(),
        sticky::held(owners, sorted, sorted[k].id, all.len()) <= sticky::quota(all, sorted, owners, k),
    ensures
        ({
            let now = sticky::keep(all, sorted, owners, k, claims, n);
            &&& now.len() == all.len()
            &&& id != sorted[k].id ==> sticky::held(now, sorted, id, all.len()) == sticky::held(
                owners,
                sorted,
                id,
                all.len(),
            )
            &&& sticky::held(now, sorted, sorted[k].id, all.len()) <= sticky::quota(all, sorted, owners, k)
        }),
    decreases n,
{
    if n > 0 {
        lemma_keep_is_bounded(all, sorted, owners, k, claims, (n - 1) as nat, id);
        let so_far = sticky::keep(all, sorted, owners, k, claims, (n - 1) as nat);
        lemma_slot_index(all, claims[n - 1], all.len());
        if let Some(i) = sticky::slot_index(all, claims[n - 1], all.len()) {
            if so_far[i] is None {
                sticky::lemma_held_update(so_far, sorted, id, i, k, all.len());
                sticky::lemma_held_update(so_far, sorted, sorted[k].id, i, k, all.len());
            }
        }
    }
}

proof fn lemma_nobody_holds_anything(all: Seq<(Seq<char>, i32)>, sorted: Seq<Member>, id: Seq<char>, n: nat)
    requires
        n <= all.len(),
    ensures
        sticky::held(Seq::new(all.len(), |i: int| None), sorted, id, n) == 0,
    decreases n,
{
    if n > 0 {
        lemma_nobody_holds_anything(all, sorted, id, (n - 1) as nat);
    }
}

/// One more member's keeping: it holds no more than it may keep, the others what they held.
proof fn lemma_kept_step(
    all: Seq<(Seq<char>, i32)>,
    sorted: Seq<Member>,
    members: Seq<Member>,
    n: nat,
    j: int,
)
    requires
        group::ids_differ(sorted),
        0 < n <= sorted.len(),
        0 <= j < sorted.len(),
    ensures
        ({
            let before = sticky::kept(all, sorted, members, (n - 1) as nat);
            let now = sticky::kept(all, sorted, members, n);
            &&& before.len() == all.len()
            &&& now.len() == all.len()
            &&& sticky::held(before, sorted, sorted[n - 1].id, all.len()) == 0
            &&& j != n - 1 ==> sticky::held(now, sorted, sorted[j].id, all.len()) == sticky::held(
                before,
                sorted,
                sorted[j].id,
                all.len(),
            )
            &&& sticky::held(now, sorted, sorted[n - 1].id, all.len()) <= sticky::quota(
                all,
                sorted,
                before,
                n - 1,
            )
        }),
{
    let before = sticky::kept(all, sorted, members, (n - 1) as nat);
    let claims = sticky::live_claims_of(members, sorted[n - 1].id);
    lemma_kept_places(all, sorted, members, (n - 1) as nat);
    lemma_not_held(all, sorted, members, n - 1, (n - 1) as nat, all.len());
    lemma_shares_are_counts(all, sorted, n - 1);
    lemma_keep_is_bounded(all, sorted, before, n - 1, claims, claims.len(), sorted[j].id);
    if j != n - 1 {
        assert(sorted[j].id != sorted[n - 1].id);
    }
}

/// What a member has kept stays what it holds while the others keep theirs.
proof fn lemma_kept_stays(
    all: Seq<(Seq<char>, i32)>,
    sorted: Seq<Member>,
    members: Seq<Member>,
    n: nat,
    j: int,
)
    requires
        group::ids_differ(sorted),
        0 <= j < n <= sorted.len(),
    ensures
        sticky::held(sticky::kept(all, sorted, members, n), sorted, sorted[j].id, all.len()) == sticky::held(
            sticky::kept(all, sorted, members, (j + 1) as nat),
            sorted,
            sorted[j].id,
            all.len(),
        ),
    decreases n,
{
    if j < n - 1 {
        lemma_kept_step(all, sorted, members, n, j);
        lemma_kept_stays(all, sorted, members, (n - 1) as nat, j);
    }
}

proof fn lemma_larger_shares_agree(
    all: Seq<(Seq<char>, i32)>,
    sorted: Seq<Member>,
    one: Seq<Option<int>>,
    other: Seq<Option<int>>,
    k: int,
    n: nat,
)
    requires
        forall|j: int|
            0 <= j < n ==> sticky::held(one, sorted, (#[trigger] sorted[j]).id, all.len()) == sticky::held(
                other,
                sorted,
                sorted[j].id,
                all.len(),
            ),
    ensures
        sticky::larger_shares(all, sorted, one, k, n) == sticky::larger_shares(all, sorted, other, k, n),
    decreases n,
{
    if n > 0 {
        lemma_larger_shares_agree(all, sorted, one, other, k, (n - 1) as nat);
        assert(sticky::held(one, sorted, sorted[n - 1].id, all.len()) == sticky::held(
            other,
            sorted,
            sorted[n - 1].id,
            all.len(),
        ));
    }
}

/// `sticky` balances, it does not merely preserve: where somebody has to give something up,
/// nobody keeps more than its fair share of what it held and one, and no more members keep
/// that one than partitions are left over. The rest is there for others.
pub proof fn law_sticky_keeps_no_more_than_a_fair_share(
    members: Seq<Member>,
    topics: Seq<(Seq<char>, i32)>,
    k: int,
)
    requires
        group::ids_differ(members),
        0 <= k < members.len(),
    ensures
        ({
            let all = group::every_slot(topics);
            let sorted = group::ordered(members);
            let owners = sticky::kept(all, sorted, members, sorted.len());
            let keeps = sticky::held(owners, sorted, sorted[k].id, all.len());
            &&& keeps <= sticky::fair_share(all, sorted, k) + 1
            &&& keeps > sticky::fair_share(all, sorted, k) ==> sticky::larger_shares(
                all,
                sorted,
                owners,
                k,
                k as nat,
            ) < sticky::left_over(all, sorted, k)
            &&& same_interest(members) ==> sticky::larger_shares(all, sorted, owners, k, sorted.len())
                <= sticky::left_over(all, sorted, k)
        }),
{
    group::law_members_are_ordered(members, members.len());
    group::lemma_ordered_ids_differ(members);
    let all = group::every_slot(topics);
    let sorted = group::ordered(members);
    let owners = sticky::kept(all, sorted, members, sorted.len());
    let before = sticky::kept(all, sorted, members, k as nat);
    lemma_kept_stays(all, sorted, members, sorted.len(), k);
    lemma_kept_step(all, sorted, members, (k + 1) as nat, k);
    assert forall|j: int| 0 <= j < k implies sticky::held(
        owners,
        sorted,
        (#[trigger] sorted[j]).id,
        all.len(),
    ) == sticky::held(before, sorted, sorted[j].id, all.len()) by {
        lemma_kept_stays(all, sorted, members, sorted.len(), j);
        lemma_kept_stays(all, sorted, members, k as nat, j);
    }
    lemma_larger_shares_agree(all, sorted, owners, before, k, k as nat);
    if same_interest(members) {
        lemma_ordered_interest(members);
        lemma_kept_balanced(all, sorted, members, sorted.len());
        lemma_shares_alike(all, sorted, k);
        lemma_larger_alike(all, sorted, owners, k, sorted.len());
    }
}

/// Whether all members want the same topics.
pub open spec fn same_interest(members: Seq<Member>) -> bool {
    forall|i: int, j: int, topic: Seq<char>|
        0 <= i < members.len() && 0 <= j < members.len() && #[trigger] group::wants(
            members[i],
            topic,
        ) ==> #[trigger] group::wants(members[j], topic)
}

/// How many of the first `n` partitions have an owner.
spec fn owned_count(owners: Seq<Option<int>>, n: nat) -> nat
    decreases n,
{
    if n == 0 {
        0
    } else {
        owned_count(owners, (n - 1) as nat) + (if owners[n - 1] is Some {
            1nat
        } else {
            0
        })
    }
}

/// How many of the first `at` partitions the first `n` members own together.
spec fn held_together(owners: Seq<Option<int>>, sorted: Seq<Member>, n: nat, at: nat) -> nat
    decreases n,
{
    if n == 0 {
        0
    } else {
        held_together(owners, sorted, (n - 1) as nat, at) + sticky::held(
            owners,
            sorted,
            sorted[n - 1].id,
            at,
        )
    }
}

proof fn lemma_together_step(owners: Seq<Option<int>>, sorted: Seq<Member>, n: nat, at: nat)
    requires
        group::ids_differ(sorted),
        n <= sorted.len(),
        0 < at <= owners.len(),
        owners[at - 1] matches Some(o) ==> 0 <= o < sorted.len(),
    ensures
        held_together(owners, sorted, n, at) == held_together(owners, sorted, n, (at - 1) as nat)
            + (match owners[at - 1] {
            Some(o) => if o < n {
                1nat
            } else {
                0
            },
            None => 0,
        }),
    decreases n,
{
    if n > 0 {
        lemma_together_step(owners, sorted, (n - 1) as nat, at);
        if let Some(o) = owners[at - 1] {
            if o != n - 1 {
                assert(sorted[o].id != sorted[n - 1].id);
            }
        }
    }
}

proof fn lemma_nothing_together(owners: Seq<Option<int>>, sorted: Seq<Member>, n: nat)
    ensures
        held_together(owners, sorted, n, 0) == 0,
    decreases n,
{
    if n > 0 {
        lemma_nothing_together(owners, sorted, (n - 1) as nat);
    }
}

/// What is owned is what the members own together.
proof fn lemma_together(
    all: Seq<(Seq<char>, i32)>,
    owners: Seq<Option<int>>,
    sorted: Seq<Member>,
    at: nat,
)
    requires
        group::ids_differ(sorted),
        assignor::apt(all, owners, sorted),
        at <= all.len(),
    ensures
        held_together(owners, sorted, sorted.len(), at) == owned_count(owners, at),
    decreases at,
{
    if at == 0 {
        lemma_nothing_together(owners, sorted, sorted.len());
    } else {
        lemma_together(all, owners, sorted, (at - 1) as nat);
        lemma_together_step(owners, sorted, sorted.len(), at);
    }
}

/// Only what is wanted is owned; nothing wanted that has no owner is counted.
proof fn lemma_owned_is_wanted(
    all: Seq<(Seq<char>, i32)>,
    owners: Seq<Option<int>>,
    sorted: Seq<Member>,
    k: int,
    n: nat,
)
    requires
        same_interest(sorted),
        assignor::apt(all, owners, sorted),
        0 <= k < sorted.len(),
        n <= all.len(),
    ensures
        owned_count(owners, n) <= sticky::wanted_count(all, sorted[k], n),
        (exists|i: int|
            0 <= i < n && (#[trigger] owners[i]) is None && group::wants(sorted[k], all[i].0))
            ==> owned_count(owners, n) < sticky::wanted_count(all, sorted[k], n),
        (forall|i: int|
            0 <= i < n && group::wants(sorted[k], (#[trigger] all[i]).0) ==> owners[i] is Some)
            ==> owned_count(owners, n) == sticky::wanted_count(all, sorted[k], n),
    decreases n,
{
    if n > 0 {
        lemma_owned_is_wanted(all, owners, sorted, k, (n - 1) as nat);
        if let Some(o) = owners[n - 1] {
            assert(group::wants(sorted[o], all[n - 1].0));
            assert(group::wants(sorted[k], all[n - 1].0));
        }
        if exists|i: int|
            0 <= i < n && (#[trigger] owners[i]) is None && group::wants(sorted[k], all[i].0) {
            let i = choose|i: int|
                0 <= i < n && (#[trigger] owners[i]) is None && group::wants(sorted[k], all[i].0);
            if i < n - 1 {
                assert(owners[i] is None && group::wants(sorted[k], all[i].0));
            }
        }
        if forall|i: int|
            0 <= i < n && group::wants(sorted[k], (#[trigger] all[i]).0) ==> owners[i] is Some {
            assert(group::wants(sorted[k], all[n - 1].0) ==> owners[n - 1] is Some);
            assert forall|i: int|
                0 <= i < n - 1 && group::wants(sorted[k], (#[trigger] all[i]).0) implies owners[i]
                is Some by {}
        }
    }
}

proof fn lemma_all_share(sorted: Seq<Member>, k: int, n: nat)
    requires
        same_interest(sorted),
        0 <= k < sorted.len(),
        n <= sorted.len(),
        sorted[k].topics.len() > 0,
    ensures
        sticky::sharer_count(sorted, sorted[k], n) == n,
    decreases n,
{
    if n > 0 {
        lemma_all_share(sorted, k, (n - 1) as nat);
        let topic = sorted[k].topics[0];
        assert(group::wants(sorted[k], topic));
        assert(group::wants(sorted[n - 1], topic));
        let other = sorted[n - 1];
        let t = choose|t: int| 0 <= t < other.topics.len() && other.topics[t] == topic;
        assert(group::wants(sorted[k], other.topics[t]));
    }
}

proof fn lemma_wanted_alike(
    all: Seq<(Seq<char>, i32)>,
    sorted: Seq<Member>,
    k: int,
    j: int,
    n: nat,
)
    requires
        same_interest(sorted),
        0 <= k < sorted.len(),
        0 <= j < sorted.len(),
        n <= all.len(),
    ensures
        sticky::wanted_count(all, sorted[k], n) == sticky::wanted_count(all, sorted[j], n),
    decreases n,
{
    if n > 0 {
        lemma_wanted_alike(all, sorted, k, j, (n - 1) as nat);
        let topic = all[n - 1].0;
        assert(group::wants(sorted[k], topic) ==> group::wants(sorted[j], topic));
        assert(group::wants(sorted[j], topic) ==> group::wants(sorted[k], topic));
    }
}

proof fn lemma_nothing_wanted(all: Seq<(Seq<char>, i32)>, member: Member, n: nat)
    requires
        member.topics.len() == 0,
        n <= all.len(),
    ensures
        sticky::wanted_count(all, member, n) == 0,
    decreases n,
{
    if n > 0 {
        lemma_nothing_wanted(all, member, (n - 1) as nat);
        assert(!group::wants(member, all[n - 1].0));
    }
}

/// What the member at place `j` holds.
spec fn holding(
    all: Seq<(Seq<char>, i32)>,
    owners: Seq<Option<int>>,
    sorted: Seq<Member>,
    j: int,
) -> int {
    sticky::held(owners, sorted, sorted[j].id, all.len()) as int
}

/// How many of the first `n` members hold more than `base`.
spec fn larger(
    all: Seq<(Seq<char>, i32)>,
    owners: Seq<Option<int>>,
    sorted: Seq<Member>,
    base: int,
    n: nat,
) -> nat
    decreases n,
{
    if n == 0 {
        0
    } else {
        larger(all, owners, sorted, base, (n - 1) as nat) + (if holding(
            all,
            owners,
            sorted,
            n - 1,
        ) > base {
            1nat
        } else {
            0
        })
    }
}

/// The fair share where all members want the same.
spec fn even_share(all: Seq<(Seq<char>, i32)>, sorted: Seq<Member>) -> int {
    sticky::wanted_count(all, sorted[0], all.len()) as int / sorted.len() as int
}

/// What is left over by it.
spec fn even_rest(all: Seq<(Seq<char>, i32)>, sorted: Seq<Member>) -> int {
    sticky::wanted_count(all, sorted[0], all.len()) as int % sorted.len() as int
}

/// Whether nobody holds more than its fair share and one, and no more members hold that one
/// than partitions are left over.
spec fn balanced(
    all: Seq<(Seq<char>, i32)>,
    owners: Seq<Option<int>>,
    sorted: Seq<Member>,
) -> bool {
    &&& forall|j: int|
        0 <= j < sorted.len() ==> #[trigger] holding(all, owners, sorted, j) <= even_share(
            all,
            sorted,
        ) + 1
    &&& larger(all, owners, sorted, even_share(all, sorted), sorted.len()) <= even_rest(all, sorted)
}

/// Where all members want the same, they have the same fair share.
proof fn lemma_shares_alike(all: Seq<(Seq<char>, i32)>, sorted: Seq<Member>, k: int)
    requires
        same_interest(sorted),
        0 <= k < sorted.len(),
    ensures
        sticky::fair_share(all, sorted, k) == even_share(all, sorted),
        sticky::left_over(all, sorted, k) == even_rest(all, sorted),
        even_share(all, sorted) >= 0,
        0 <= even_rest(all, sorted) < sorted.len(),
        even_share(all, sorted) * sorted.len() + even_rest(all, sorted) == sticky::wanted_count(
            all,
            sorted[0],
            all.len(),
        ),
        sorted[k].topics.len() == 0 ==> even_rest(all, sorted) == 0,
{
    let wanted = sticky::wanted_count(all, sorted[0], all.len()) as int;
    let size = sorted.len() as int;
    lemma_wanted_alike(all, sorted, 0, k, all.len());
    lemma_shares_are_counts(all, sorted, k);
    vstd::arithmetic::div_mod::lemma_fundamental_div_mod(wanted, size);
    vstd::arithmetic::div_mod::lemma_mod_bound(wanted, size);
    assert(size * (wanted / size) == (wanted / size) * size) by (nonlinear_arith);
    if sorted[k].topics.len() == 0 {
        lemma_nothing_wanted(all, sorted[k], all.len());
        let by = sticky::sharers(sorted, k);
        vstd::arithmetic::div_mod::lemma_small_mod(0, size as nat);
        vstd::arithmetic::div_mod::lemma_small_mod(0, by as nat);
        vstd::arithmetic::div_mod::lemma_basic_div(0, size);
        vstd::arithmetic::div_mod::lemma_basic_div(0, by);
    } else {
        lemma_all_share(sorted, k, sorted.len());
    }
}

proof fn lemma_larger_alike(
    all: Seq<(Seq<char>, i32)>,
    sorted: Seq<Member>,
    owners: Seq<Option<int>>,
    k: int,
    n: nat,
)
    requires
        same_interest(sorted),
        0 <= k < sorted.len(),
        n <= sorted.len(),
    ensures
        sticky::larger_shares(all, sorted, owners, k, n) == if sorted[k].topics.len() == 0 {
            0
        } else {
            larger(all, owners, sorted, even_share(all, sorted), n)
        },
    decreases n,
{
    if n > 0 {
        lemma_larger_alike(all, sorted, owners, k, (n - 1) as nat);
        lemma_shares_alike(all, sorted, n - 1);
        if sorted[k].topics.len() > 0 {
            lemma_all_share(sorted, k, n);
            lemma_all_share(sorted, k, (n - 1) as nat);
        } else if sticky::shares_a_topic(sorted[n - 1], sorted[k]) {
            let a = sorted[n - 1];
            let t = choose|t: int|
                0 <= t < a.topics.len() && group::wants(sorted[k], #[trigger] a.topics[t]);
            assert(group::wants(sorted[k], a.topics[t]));
        }
    }
}

/// Where all members want the same, a member may keep one more than its fair share while
/// fewer members ahead of it have done so than partitions are left over.
proof fn lemma_quota_alike(
    all: Seq<(Seq<char>, i32)>,
    sorted: Seq<Member>,
    owners: Seq<Option<int>>,
    k: int,
)
    requires
        same_interest(sorted),
        0 <= k < sorted.len(),
    ensures
        sticky::quota(all, sorted, owners, k) == even_share(all, sorted) + (if larger(
            all,
            owners,
            sorted,
            even_share(all, sorted),
            k as nat,
        ) < even_rest(all, sorted) {
            1int
        } else {
            0
        }),
{
    lemma_shares_alike(all, sorted, k);
    lemma_larger_alike(all, sorted, owners, k, k as nat);
}

proof fn lemma_larger_agree(
    all: Seq<(Seq<char>, i32)>,
    one: Seq<Option<int>>,
    other: Seq<Option<int>>,
    sorted: Seq<Member>,
    base: int,
    k: int,
    n: nat,
)
    requires
        forall|j: int|
            0 <= j < n && j != k ==> #[trigger] holding(all, one, sorted, j) == holding(
                all,
                other,
                sorted,
                j,
            ),
        holding(all, one, sorted, k) <= base,
    ensures
        larger(all, other, sorted, base, n) == larger(all, one, sorted, base, n) + (if 0 <= k < n
            && holding(all, other, sorted, k) > base {
            1nat
        } else {
            0
        }),
    decreases n,
{
    if n > 0 {
        lemma_larger_agree(all, one, other, sorted, base, k, (n - 1) as nat);
        if n - 1 != k {
            assert(holding(all, one, sorted, n - 1) == holding(all, other, sorted, n - 1));
        }
    }
}

proof fn lemma_larger_ends(
    all: Seq<(Seq<char>, i32)>,
    owners: Seq<Option<int>>,
    sorted: Seq<Member>,
    base: int,
    k: nat,
    n: nat,
)
    requires
        k <= n,
        forall|j: int| k <= j < n ==> #[trigger] holding(all, owners, sorted, j) <= base,
    ensures
        larger(all, owners, sorted, base, n) == larger(all, owners, sorted, base, k),
    decreases n,
{
    if k < n {
        lemma_larger_ends(all, owners, sorted, base, k, (n - 1) as nat);
        assert(holding(all, owners, sorted, n - 1) <= base);
    }
}

proof fn lemma_larger_grows(
    all: Seq<(Seq<char>, i32)>,
    owners: Seq<Option<int>>,
    sorted: Seq<Member>,
    base: int,
    k: nat,
    n: nat,
)
    requires
        k <= n,
    ensures
        larger(all, owners, sorted, base, k) <= larger(all, owners, sorted, base, n) <= larger(
            all,
            owners,
            sorted,
            base,
            k,
        ) + n - k,
    decreases n,
{
    if k < n {
        lemma_larger_grows(all, owners, sorted, base, k, (n - 1) as nat);
    }
}

/// Where all members want the same, what they keep is balanced.
proof fn lemma_kept_balanced(
    all: Seq<(Seq<char>, i32)>,
    sorted: Seq<Member>,
    members: Seq<Member>,
    n: nat,
)
    requires
        group::ids_differ(sorted),
        same_interest(sorted),
        0 < sorted.len(),
        n <= sorted.len(),
    ensures
        balanced(all, sticky::kept(all, sorted, members, n), sorted),
    decreases n,
{
    let base = even_share(all, sorted);
    let now = sticky::kept(all, sorted, members, n);
    lemma_shares_alike(all, sorted, 0);
    if n == 0 {
        assert forall|j: int| 0 <= j < sorted.len() implies #[trigger] holding(
            all,
            now,
            sorted,
            j,
        ) == 0 by {
            lemma_nobody_holds_anything(all, sorted, sorted[j].id, all.len());
        }
        lemma_larger_ends(all, now, sorted, base, 0, sorted.len());
    } else {
        let before = sticky::kept(all, sorted, members, (n - 1) as nat);
        lemma_kept_balanced(all, sorted, members, (n - 1) as nat);
        assert forall|j: int| n - 1 <= j < sorted.len() implies #[trigger] holding(
            all,
            before,
            sorted,
            j,
        ) <= base by {
            lemma_not_held(all, sorted, members, j, (n - 1) as nat, all.len());
        }
        lemma_larger_ends(all, before, sorted, base, (n - 1) as nat, sorted.len());
        lemma_quota_alike(all, sorted, before, n - 1);
        assert forall|j: int| 0 <= j < sorted.len() implies #[trigger] holding(
            all,
            now,
            sorted,
            j,
        ) <= base + 1 && (j != n - 1 ==> holding(all, now, sorted, j) == holding(
            all,
            before,
            sorted,
            j,
        )) by {
            lemma_kept_step(all, sorted, members, n, j);
            assert(holding(all, before, sorted, j) <= base + 1);
        }
        lemma_kept_step(all, sorted, members, n, n - 1);
        assert forall|j: int| 0 <= j < sorted.len() && j != n - 1 implies #[trigger] holding(
            all,
            before,
            sorted,
            j,
        ) == holding(all, now, sorted, j) by {
            assert(holding(all, now, sorted, j) <= base + 1);
        }
        lemma_larger_agree(all, before, now, sorted, base, n - 1, sorted.len());
    }
}

/// What the first members hold together, by their fair shares and by how many of them hold
/// more.
proof fn lemma_sums(
    all: Seq<(Seq<char>, i32)>,
    owners: Seq<Option<int>>,
    sorted: Seq<Member>,
    base: int,
    n: nat,
)
    requires
        n <= sorted.len(),
    ensures
        ({
            let together = held_together(owners, sorted, n, all.len()) as int;
            let sum = base * n + larger(all, owners, sorted, base, n);
            &&& (forall|j: int|
                0 <= j < n ==> #[trigger] holding(all, owners, sorted, j) <= base + 1) ==> together
                <= sum && ((exists|j: int|
                0 <= j < n && #[trigger] holding(all, owners, sorted, j) < base) ==> together < sum)
            &&& (forall|j: int| 0 <= j < n ==> #[trigger] holding(all, owners, sorted, j) >= base)
                ==> together >= sum
        }),
    decreases n,
{
    if n > 0 {
        lemma_sums(all, owners, sorted, base, (n - 1) as nat);
        assert(base * n == base * (n - 1) + base) by (nonlinear_arith);
        let last = holding(all, owners, sorted, n - 1);
        if exists|j: int| 0 <= j < n && #[trigger] holding(all, owners, sorted, j) < base {
            let j = choose|j: int|
                0 <= j < n && #[trigger] holding(all, owners, sorted, j) < base;
            assert(j == n - 1 || (0 <= j < n - 1 && holding(all, owners, sorted, j) < base));
        }
    } else {
        assert(base * 0 == 0) by (nonlinear_arith);
    }
}

/// Feeding the one that holds fewest keeps the balance.
proof fn lemma_fed_balanced(
    all: Seq<(Seq<char>, i32)>,
    sorted: Seq<Member>,
    owners: Seq<Option<int>>,
    n: nat,
)
    requires
        group::ids_differ(sorted),
        same_interest(sorted),
        0 < sorted.len(),
        assignor::apt(all, owners, sorted),
        balanced(all, owners, sorted),
        n <= all.len(),
    ensures
        assignor::apt(all, sticky::fed(all, sorted, owners, n), sorted),
        balanced(all, sticky::fed(all, sorted, owners, n), sorted),
    decreases n,
{
    lemma_fed_apt(all, sorted, owners, n);
    if n > 0 {
        lemma_fed_balanced(all, sorted, owners, (n - 1) as nat);
        lemma_fed_apt(all, sorted, owners, (n - 1) as nat);
        let before = sticky::fed(all, sorted, owners, (n - 1) as nat);
        let after = sticky::fed(all, sorted, owners, n);
        let topic = all[n - 1].0;
        sticky::lemma_fewest(all, sorted, before, topic, sorted.len());
        if before[n - 1] is None && sticky::fewest(all, sorted, before, topic, sorted.len()) is Some {
            let b = sticky::fewest(all, sorted, before, topic, sorted.len()).unwrap();
            lemma_owned_is_wanted(all, before, sorted, 0, all.len());
            assert(group::wants(sorted[b], topic));
            assert(group::wants(sorted[0], topic));
            assert(before[n - 1] is None && group::wants(sorted[0], all[n - 1].0));
            lemma_together(all, before, sorted, all.len());
            lemma_one_more_is_balanced(all, sorted, before, n - 1, b);
        } else {
            assert(after =~= before);
        }
    }
}

proof fn lemma_one_more_is_balanced(
    all: Seq<(Seq<char>, i32)>,
    sorted: Seq<Member>,
    before: Seq<Option<int>>,
    i: int,
    b: int,
)
    requires
        group::ids_differ(sorted),
        same_interest(sorted),
        0 < sorted.len(),
        before.len() == all.len(),
        balanced(all, before, sorted),
        0 <= i < all.len(),
        before[i] is None,
        sticky::fewest(all, sorted, before, all[i].0, sorted.len()) == Some(b),
        held_together(before, sorted, sorted.len(), all.len()) < sticky::wanted_count(
            all,
            sorted[0],
            all.len(),
        ),
    ensures
        balanced(all, before.update(i, Some(b)), sorted),
{
    let after = before.update(i, Some(b));
    let base = even_share(all, sorted);
    let least = holding(all, before, sorted, b);
    let topic = all[i].0;
    lemma_shares_alike(all, sorted, 0);
    sticky::lemma_fewest(all, sorted, before, topic, sorted.len());
    assert forall|j: int| 0 <= j < sorted.len() implies #[trigger] holding(
        all,
        before,
        sorted,
        j,
    ) >= least by {
        assert(group::wants(sorted[b], topic));
        assert(group::wants(sorted[j], topic));
        sticky::lemma_fewest_is_least(all, sorted, before, topic, sorted.len(), j);
    }
    lemma_sums(all, before, sorted, base, sorted.len());
    if least > base {
        lemma_sums(all, before, sorted, base + 1, sorted.len());
        let size = sorted.len();
        assert((base + 1) * size == base * size + size) by (nonlinear_arith);
    }
    assert forall|j: int| 0 <= j < sorted.len() implies #[trigger] holding(
        all,
        after,
        sorted,
        j,
    ) == holding(all, before, sorted, j) + (if j == b {
        1int
    } else {
        0
    }) by {
        sticky::lemma_held_update(before, sorted, sorted[j].id, i, b, all.len());
        if j != b {
            assert(sorted[j].id != sorted[b].id);
        }
    }
    assert forall|j: int| 0 <= j < sorted.len() implies #[trigger] holding(
        all,
        after,
        sorted,
        j,
    ) <= base + 1 by {
        assert(holding(all, before, sorted, j) <= base + 1);
    }
    assert forall|j: int| 0 <= j < sorted.len() && j != b implies #[trigger] holding(
        all,
        before,
        sorted,
        j,
    ) == holding(all, after, sorted, j) by {
        assert(holding(all, after, sorted, j) <= base + 1);
    }
    assert(holding(all, after, sorted, b) == least + 1);
    lemma_larger_agree(all, before, after, sorted, base, b, sorted.len());
}

proof fn lemma_ordered_interest(members: Seq<Member>)
    requires
        same_interest(members),
    ensures
        same_interest(group::ordered(members)),
        group::ordered(members).len() == members.len(),
{
    let sorted = group::ordered(members);
    group::law_members_are_ordered(members, members.len());
    assert(members.take(members.len() as int) =~= members);
    assert forall|i: int, j: int, topic: Seq<char>|
        0 <= i < sorted.len() && 0 <= j < sorted.len() && #[trigger] group::wants(
            sorted[i],
            topic,
        ) implies #[trigger] group::wants(sorted[j], topic) by {
        assert(sorted.contains(sorted[i]) && sorted.contains(sorted[j]));
        let a = choose|a: int| 0 <= a < members.len() && members[a] == sorted[i];
        let b = choose|b: int| 0 <= b < members.len() && members[b] == sorted[j];
        assert(group::wants(members[a], topic) && group::wants(members[b], topic));
    }
}

/// Where everything wanted is owned, balanced owners hold their fair share or one more, and
/// as many hold one more as partitions are left over.
proof fn lemma_balanced_is_fair(
    all: Seq<(Seq<char>, i32)>,
    owners: Seq<Option<int>>,
    sorted: Seq<Member>,
)
    requires
        group::ids_differ(sorted),
        same_interest(sorted),
        0 < sorted.len(),
        assignor::apt(all, owners, sorted),
        assignor::complete(all, owners, sorted),
        balanced(all, owners, sorted),
    ensures
        forall|j: int|
            0 <= j < sorted.len() ==> even_share(all, sorted) <= #[trigger] holding(
                all,
                owners,
                sorted,
                j,
            ),
        larger(all, owners, sorted, even_share(all, sorted), sorted.len()) == even_rest(
            all,
            sorted,
        ),
{
    let base = even_share(all, sorted);
    assert forall|i: int|
        0 <= i < all.len() && group::wants(sorted[0], (#[trigger] all[i]).0) implies owners[i]
        is Some by {
        assert(assignor::somebody_wants(sorted, all[i].0));
    }
    lemma_owned_is_wanted(all, owners, sorted, 0, all.len());
    lemma_together(all, owners, sorted, all.len());
    lemma_sums(all, owners, sorted, base, sorted.len());
    lemma_shares_alike(all, sorted, 0);
    assert forall|j: int| 0 <= j < sorted.len() implies base <= #[trigger] holding(
        all,
        owners,
        sorted,
        j,
    ) by {}
}

/// Where all members want the same, dealing out leaves nothing to even out.
proof fn lemma_dealt_is_even(all: Seq<(Seq<char>, i32)>, members: Seq<Member>)
    requires
        group::ids_differ(members),
        same_interest(members),
        0 < members.len(),
    ensures
        ({
            let sorted = group::ordered(members);
            let owners = sticky::fed(all, sorted, sticky::kept(all, sorted, members, sorted.len()), all.len());
            &&& sticky::last_lopsided(all, sorted, owners, all.len()) is None
            &&& sticky::levelled(all, sorted, owners) == owners
            &&& assignor::apt(all, owners, sorted)
            &&& assignor::complete(all, owners, sorted)
            &&& balanced(all, owners, sorted)
        }),
{
    let sorted = group::ordered(members);
    let base = even_share(all, sorted);
    let start = sticky::kept(all, sorted, members, sorted.len());
    let owners = sticky::fed(all, sorted, start, all.len());
    group::lemma_ordered_ids_differ(members);
    lemma_ordered_interest(members);
    lemma_kept_apt(all, sorted, members, sorted.len());
    lemma_kept_balanced(all, sorted, members, sorted.len());
    lemma_fed_balanced(all, sorted, start, all.len());
    lemma_fed_apt(all, sorted, start, all.len());
    lemma_balanced_is_fair(all, owners, sorted);
    sticky::lemma_last_lopsided(all, sorted, owners, all.len());
    if let Some(i) = sticky::last_lopsided(all, sorted, owners, all.len()) {
        sticky::lemma_fewest(all, sorted, owners, all[i].0, sorted.len());
        let b = sticky::fewest(all, sorted, owners, all[i].0, sorted.len()).unwrap();
        let o = owners[i].unwrap();
        assert(holding(all, owners, sorted, o) <= base + 1);
        assert(base <= holding(all, owners, sorted, b));
    }
}

/// Whoever holds something owns some partition.
proof fn lemma_holders_own(
    all: Seq<(Seq<char>, i32)>,
    owners: Seq<Option<int>>,
    sorted: Seq<Member>,
    j: int,
    n: nat,
)
    requires
        group::ids_differ(sorted),
        assignor::apt(all, owners, sorted),
        0 <= j < sorted.len(),
        n <= all.len(),
        sticky::held(owners, sorted, sorted[j].id, n) > 0,
    ensures
        exists|i: int| 0 <= i < n && #[trigger] owners[i] == Some(j),
    decreases n,
{
    if owners[n - 1] != Some(j) {
        if let Some(o) = owners[n - 1] {
            assert(sorted[o].id != sorted[j].id);
        }
        lemma_holders_own(all, owners, sorted, j, (n - 1) as nat);
        let i = choose|i: int| 0 <= i < n - 1 && #[trigger] owners[i] == Some(j);
        assert(owners[i] == Some(j));
    } else {
        assert(owners[n - 1] == Some(j));
    }
}

/// Where all members want the same, everyone ends up with its fair share, or with one more.
proof fn lemma_sticky_is_fair(all: Seq<(Seq<char>, i32)>, members: Seq<Member>)
    requires
        group::ids_differ(members),
        same_interest(members),
        0 < members.len(),
    ensures
        ({
            let sorted = group::ordered(members);
            let base = even_share(all, sorted);
            let owners = sticky::sticky_owners(all, members);
            &&& sorted.len() == members.len()
            &&& balanced(all, owners, sorted)
            &&& forall|j: int|
                0 <= j < sorted.len() ==> base <= #[trigger] holding(all, owners, sorted, j)
            &&& larger(all, owners, sorted, base, sorted.len()) == even_rest(all, sorted)
        }),
{
    let sorted = group::ordered(members);
    let owners = sticky::sticky_owners(all, members);
    group::lemma_ordered_ids_differ(members);
    lemma_ordered_interest(members);
    lemma_sticky_apt(all, members);
    lemma_dealt_is_even(all, members);
    if sticky::level(all, sorted, sticky::undisturbed(all, members)) {
        assert forall|i: int|
            0 <= i < all.len() && group::wants(sorted[0], (#[trigger] all[i]).0) implies owners[i]
            is Some by {
            assert(assignor::somebody_wants(sorted, all[i].0));
        }
        assert forall|i: int, j: int|
            0 <= i < sorted.len() && 0 <= j < sorted.len() implies #[trigger] holding(
            all,
            owners,
            sorted,
            i,
        ) <= #[trigger] holding(all, owners, sorted, j) + 1 by {
            if holding(all, owners, sorted, i) > 0 {
                lemma_holders_own(all, owners, sorted, i, all.len());
                let p = choose|p: int| 0 <= p < all.len() && #[trigger] owners[p] == Some(i);
                assert(group::wants(sorted[i], all[p].0));
                assert(group::wants(sorted[j], all[p].0));
                assert(owners[p] is Some && group::wants(sorted[j], all[p].0));
            }
        }
        lemma_even_is_balanced(all, owners, sorted);
    }
    lemma_balanced_is_fair(all, owners, sorted);
}

/// A member's list is as long as the number of partitions that it holds.
proof fn lemma_share_len(
    all: Seq<(Seq<char>, i32)>,
    owners: Seq<Option<int>>,
    sorted: Seq<Member>,
    id: Seq<char>,
    n: nat,
)
    ensures
        group::share(all, owners, sorted, id, n).len() == sticky::held(owners, sorted, id, n),
    decreases n,
{
    if n > 0 {
        lemma_share_len(all, owners, sorted, id, (n - 1) as nat);
    }
}

/// `sticky` balances: where all members want the same topics, everyone gets its fair share
/// or one more, and as many get one more as partitions are left over. So nobody gets two more
/// than another, and, where there are as many partitions as members, nobody goes without,
/// however much the others held.
pub proof fn law_sticky_gives_everyone_its_share(
    members: Seq<Member>,
    topics: Seq<(Seq<char>, i32)>,
    k: int,
)
    requires
        group::ids_differ(members),
        same_interest(members),
        0 <= k < members.len(),
    ensures
        ({
            let all = group::every_slot(topics);
            let sorted = group::ordered(members);
            let wanted = sticky::wanted_count(all, sorted[k], all.len());
            let given = StickyAssignor.decides(members, topics)[sorted[k].id].len() as int;
            let least = wanted as int / members.len() as int;
            &&& least == sticky::fair_share(all, sorted, k)
            &&& least <= given <= least + 1
            &&& sticky::larger_shares(all, sorted, sticky::sticky_owners(all, members), k, sorted.len())
                == sticky::left_over(all, sorted, k)
            &&& wanted >= members.len() ==> given > 0
        }),
{
    let all = group::every_slot(topics);
    let sorted = group::ordered(members);
    let owners = sticky::sticky_owners(all, members);
    lemma_sticky_is_fair(all, members);
    lemma_share_len(all, owners, sorted, sorted[k].id, all.len());
    lemma_ordered_interest(members);
    lemma_shares_alike(all, sorted, k);
    lemma_larger_alike(all, sorted, owners, k, sorted.len());
    lemma_wanted_alike(all, sorted, 0, k, all.len());
    assert(holding(all, owners, sorted, k) <= even_share(all, sorted) + 1);
    assert(even_share(all, sorted) <= holding(all, owners, sorted, k));
    assert(group::has_id(sorted, sorted[k].id));
    let wanted = sticky::wanted_count(all, sorted[k], all.len()) as int;
    let size = members.len() as int;
    if wanted >= size {
        vstd::arithmetic::div_mod::lemma_div_is_ordered(size, wanted, size);
        vstd::arithmetic::div_mod::lemma_div_by_self(size);
    }
}

/// `sticky` evens out: nobody is left holding two more than somebody else that wants one of
/// its partitions, whatever topics the members want. So a member that wants a topic goes
/// without only where nobody that was given some of that topic holds two.
pub proof fn law_sticky_is_level(
    members: Seq<Member>,
    topics: Seq<(Seq<char>, i32)>,
    slot: (Seq<char>, i32),
    holder: int,
    k: int,
)
    requires
        0 <= holder < members.len(),
        0 <= k < members.len(),
        StickyAssignor.decides(members, topics)[members[holder].id].contains(slot),
        group::wants(members[k], slot.0),
    ensures
        ({
            let all = group::every_slot(topics);
            sticky::level(all, group::ordered(members), sticky::sticky_owners(all, members))
        }),
        StickyAssignor.decides(members, topics)[members[holder].id].len()
            <= StickyAssignor.decides(members, topics)[members[k].id].len() + 1,
{
    let all = group::every_slot(topics);
    let sorted = group::ordered(members);
    let owners = sticky::sticky_owners(all, members);
    let (from, to) = (members[holder].id, members[k].id);
    group::law_members_are_ordered(members, members.len());
    assert(members.take(members.len() as int) =~= members);
    lemma_sticky_apt(all, members);
    group::lemma_same_ids(members, from);
    group::lemma_same_ids(members, to);
    assert(group::has_id(members, from) && group::has_id(members, to));
    assignor::lemma_share_contains(all, owners, sorted, from, all.len(), slot);
    lemma_share_len(all, owners, sorted, from, all.len());
    lemma_share_len(all, owners, sorted, to, all.len());
    let i = choose|i: int|
        0 <= i < all.len() && #[trigger] all[i] == slot && owners[i] is Some
            && sorted[owners[i].unwrap()].id == from;
    assert(members.contains(members[k]));
    assert(sorted.contains(members[k]));
    let j = choose|j: int| 0 <= j < sorted.len() && sorted[j] == members[k];
    assert(owners[i] is Some && group::wants(sorted[j], all[i].0));
}

/// Whether what each member claims is what it owns, once.
spec fn claimed(
    all: Seq<(Seq<char>, i32)>,
    owners: Seq<Option<int>>,
    members: Seq<Member>,
) -> bool {
    let sorted = group::ordered(members);
    forall|j: int|
        0 <= j < sorted.len() ==> {
            let claims = sticky::live_claims_of(members, (#[trigger] sorted[j]).id);
            &&& claims.no_duplicates()
            &&& forall|slot: (Seq<char>, i32)| #[trigger]
                claims.contains(slot) <==> exists|i: int|
                    0 <= i < all.len() && #[trigger] all[i] == slot && owners[i] == Some(j)
        }
}

/// A member claims as many partitions as it owns.
proof fn lemma_claimed_len(
    all: Seq<(Seq<char>, i32)>,
    owners: Seq<Option<int>>,
    members: Seq<Member>,
    j: int,
)
    requires
        all.no_duplicates(),
        group::ids_differ(group::ordered(members)),
        assignor::apt(all, owners, group::ordered(members)),
        claimed(all, owners, members),
        0 <= j < group::ordered(members).len(),
    ensures
        sticky::live_claims_of(members, group::ordered(members)[j].id).len() == holding(
            all,
            owners,
            group::ordered(members),
            j,
        ),
{
    let sorted = group::ordered(members);
    let id = sorted[j].id;
    let claims = sticky::live_claims_of(members, id);
    let list = group::share(all, owners, sorted, id, all.len());
    lemma_share_len(all, owners, sorted, id, all.len());
    assignor::lemma_share_no_duplicates(all, owners, sorted, id, all.len());
    assert forall|slot: (Seq<char>, i32)| claims.contains(slot) <==> #[trigger] list.contains(
        slot,
    ) by {
        assignor::lemma_share_contains(all, owners, sorted, id, all.len(), slot);
        if claims.contains(slot) {
            let i = choose|i: int|
                0 <= i < all.len() && #[trigger] all[i] == slot && owners[i] == Some(j);
            assert(all[i] == slot && owners[i] is Some);
        }
        if list.contains(slot) {
            let i = choose|i: int|
                0 <= i < all.len() && #[trigger] all[i] == slot && owners[i] is Some
                    && sorted[owners[i].unwrap()].id == id;
            if owners[i].unwrap() != j {
                assert(sorted[owners[i].unwrap()].id != sorted[j].id);
            }
            assert(all[i] == slot && owners[i] == Some(j));
        }
    }
    assert(claims.to_set() =~= list.to_set());
    claims.unique_seq_to_set();
    list.unique_seq_to_set();
}

/// Members that claim a balanced lot keep all of it.
proof fn lemma_balanced_claims_are_kept(
    all: Seq<(Seq<char>, i32)>,
    owners: Seq<Option<int>>,
    members: Seq<Member>,
    n: nat,
)
    requires
        all.no_duplicates(),
        group::ids_differ(group::ordered(members)),
        same_interest(group::ordered(members)),
        assignor::apt(all, owners, group::ordered(members)),
        balanced(all, owners, group::ordered(members)),
        claimed(all, owners, members),
        n <= group::ordered(members).len(),
    ensures
        ({
            let now = sticky::kept(all, group::ordered(members), members, n);
            &&& now.len() == all.len()
            &&& forall|i: int|
                0 <= i < all.len() ==> #[trigger] now[i] == if owners[i] is Some
                    && owners[i].unwrap() < n {
                    owners[i]
                } else {
                    None
                }
        }),
    decreases n,
{
    let sorted = group::ordered(members);
    let now = sticky::kept(all, sorted, members, n);
    if n > 0 {
        lemma_balanced_claims_are_kept(all, owners, members, (n - 1) as nat);
        let before = sticky::kept(all, sorted, members, (n - 1) as nat);
        let k = n - 1;
        let claims = sticky::live_claims_of(members, sorted[k].id);
        let base = even_share(all, sorted);
        assert forall|j: int| 0 <= j < k implies #[trigger] holding(all, before, sorted, j)
            == holding(all, owners, sorted, j) by {
            lemma_same_holding(all, before, owners, sorted, j, all.len());
        }
        lemma_larger_same(all, before, owners, sorted, base, k as nat);
        lemma_larger_grows(all, owners, sorted, base, n, sorted.len());
        lemma_quota_alike(all, sorted, before, k);
        lemma_claimed_len(all, owners, members, k);
        assert(holding(all, owners, sorted, k) <= base + 1);
        lemma_not_held(all, sorted, members, k, k as nat, all.len());
        assert forall|c: int| 0 <= c < claims.len() implies all.contains(#[trigger] claims[c])
            && group::wants(sorted[k], claims[c].0) by {
            assert(claims.contains(claims[c]));
            let i = choose|i: int|
                0 <= i < all.len() && #[trigger] all[i] == claims[c] && owners[i] == Some(k);
            assert(owners[i] is Some);
        }
        assert forall|i: int| 0 <= i < all.len() && claims.contains(#[trigger] all[i]) implies
            before[i] is None by {
            let x = choose|x: int|
                0 <= x < all.len() && #[trigger] all[x] == all[i] && owners[x] == Some(k);
            assert(x == i);
        }
        lemma_keep_all(all, sorted, before, k, claims, claims.len());
        assert(claims.take(claims.len() as int) =~= claims);
        assert forall|i: int| 0 <= i < all.len() implies #[trigger] now[i] == if owners[i] is Some
            && owners[i].unwrap() < n {
            owners[i]
        } else {
            None
        } by {
            assert(before[i] == if owners[i] is Some && owners[i].unwrap() < k {
                owners[i]
            } else {
                None
            });
            if owners[i] == Some(k) {
                assert(all[i] == all[i]);
                assert(claims.contains(all[i]));
                let c = choose|c: int| 0 <= c < claims.len() && claims[c] == all[i];
                assert(all[i] == claims[c]);
            } else if claims.contains(all[i]) {
                let x = choose|x: int|
                    0 <= x < all.len() && #[trigger] all[x] == all[i] && owners[x] == Some(k);
                assert(x == i);
            }
        }
    }
}

proof fn lemma_same_holding(
    all: Seq<(Seq<char>, i32)>,
    one: Seq<Option<int>>,
    other: Seq<Option<int>>,
    sorted: Seq<Member>,
    j: int,
    n: nat,
)
    requires
        group::ids_differ(sorted),
        0 <= j < sorted.len(),
        n <= all.len(),
        one.len() == all.len(),
        other.len() == all.len(),
        forall|i: int|
            0 <= i < all.len() ==> (#[trigger] one[i] matches Some(o) ==> 0 <= o < sorted.len()),
        forall|i: int|
            0 <= i < all.len() ==> (#[trigger] other[i] matches Some(o) ==> 0 <= o < sorted.len()),
        forall|i: int| 0 <= i < all.len() ==> (#[trigger] one[i] == Some(j)) == (other[i] == Some(j)),
    ensures
        sticky::held(one, sorted, sorted[j].id, n) == sticky::held(other, sorted, sorted[j].id, n),
    decreases n,
{
    if n > 0 {
        lemma_same_holding(all, one, other, sorted, j, (n - 1) as nat);
        if let Some(o) = one[n - 1] {
            if o != j {
                assert(sorted[o].id != sorted[j].id);
            }
        }
        if let Some(o) = other[n - 1] {
            if o != j {
                assert(sorted[o].id != sorted[j].id);
            }
        }
        assert((one[n - 1] == Some(j)) == (other[n - 1] == Some(j)));
    }
}

proof fn lemma_larger_same(
    all: Seq<(Seq<char>, i32)>,
    one: Seq<Option<int>>,
    other: Seq<Option<int>>,
    sorted: Seq<Member>,
    base: int,
    n: nat,
)
    requires
        forall|j: int|
            0 <= j < n ==> #[trigger] holding(all, one, sorted, j) == holding(
                all,
                other,
                sorted,
                j,
            ),
    ensures
        larger(all, one, sorted, base, n) == larger(all, other, sorted, base, n),
    decreases n,
{
    if n > 0 {
        lemma_larger_same(all, one, other, sorted, base, (n - 1) as nat);
        assert(holding(all, one, sorted, n - 1) == holding(all, other, sorted, n - 1));
    }
}

/// Members that claim a balanced lot are given it again.
proof fn lemma_balanced_claims_stay(
    all: Seq<(Seq<char>, i32)>,
    owners: Seq<Option<int>>,
    members: Seq<Member>,
    i: int,
)
    requires
        all.no_duplicates(),
        group::ids_differ(members),
        same_interest(members),
        assignor::apt(all, owners, group::ordered(members)),
        balanced(all, owners, group::ordered(members)),
        claimed(all, owners, members),
        0 <= i < all.len(),
        owners[i] is Some,
    ensures
        sticky::sticky_owners(all, members)[i] == owners[i],
{
    let sorted = group::ordered(members);
    group::law_members_are_ordered(members, members.len());
    group::lemma_ordered_ids_differ(members);
    lemma_ordered_interest(members);
    lemma_balanced_claims_are_kept(all, owners, members, sorted.len());
    lemma_kept_apt(all, sorted, members, sorted.len());
    lemma_fed_apt(all, sorted, sticky::kept(all, sorted, members, sorted.len()), all.len());
    lemma_dealt_is_even(all, members);
    lemma_claims_name_the_owners(all, owners, members);
    lemma_fed_apt(all, sorted, owners, all.len());
    assert(sticky::kept(all, sorted, members, sorted.len())[i] == owners[i]);
}

/// Where everything that somebody wants is owned, there is nothing to deal out.
proof fn lemma_nothing_to_feed(
    all: Seq<(Seq<char>, i32)>,
    sorted: Seq<Member>,
    owners: Seq<Option<int>>,
    n: nat,
)
    requires
        assignor::apt(all, owners, sorted),
        assignor::complete(all, owners, sorted),
        n <= all.len(),
    ensures
        sticky::fed(all, sorted, owners, n) == owners,
    decreases n,
{
    if n > 0 {
        lemma_nothing_to_feed(all, sorted, owners, (n - 1) as nat);
        if owners[n - 1] is None {
            let topic = all[n - 1].0;
            sticky::lemma_fewest(all, sorted, owners, topic, sorted.len());
            if let Some(k) = sticky::fewest(all, sorted, owners, topic, sorted.len()) {
                assert(group::wants(sorted[k], topic));
                assert(assignor::somebody_wants(sorted, topic));
            }
            assert(owners.update(n - 1, None) =~= owners);
        }
    }
}

/// Where what each member claims is what it owns, the claims name the owners.
proof fn lemma_claims_name_the_owners(
    all: Seq<(Seq<char>, i32)>,
    owners: Seq<Option<int>>,
    members: Seq<Member>,
)
    requires
        all.no_duplicates(),
        assignor::apt(all, owners, group::ordered(members)),
        claimed(all, owners, members),
    ensures
        sticky::as_claimed(all, group::ordered(members), members) == owners,
{
    let sorted = group::ordered(members);
    let now = sticky::as_claimed(all, sorted, members);
    assert forall|i: int| 0 <= i < all.len() implies now[i] == owners[i] by {
        lemma_claimant(members, sorted, all[i], sorted.len());
        if let Some(j) = owners[i] {
            assert(group::wants(sorted[j], all[i].0));
            assert(all[i] == all[i] && owners[i] == Some(j));
            assert(sticky::live_claims_of(members, sorted[j].id).contains(all[i]));
        }
        if let Some(k) = now[i] {
            assert(sticky::live_claims_of(members, sorted[k].id).contains(all[i]));
            let x = choose|x: int|
                0 <= x < all.len() && #[trigger] all[x] == all[i] && owners[x] == Some(k);
            assert(x == i);
        }
    }
    assert(now =~= owners);
}

/// Somebody holds least.
proof fn lemma_somebody_holds_least(
    all: Seq<(Seq<char>, i32)>,
    owners: Seq<Option<int>>,
    sorted: Seq<Member>,
    n: nat,
) -> (least: int)
    requires
        0 < n <= sorted.len(),
    ensures
        0 <= least < n,
        forall|j: int|
            0 <= j < n ==> #[trigger] holding(all, owners, sorted, j) >= holding(
                all,
                owners,
                sorted,
                least,
            ),
    decreases n,
{
    if n == 1 {
        0
    } else {
        let least = lemma_somebody_holds_least(all, owners, sorted, (n - 1) as nat);
        if holding(all, owners, sorted, n - 1) < holding(all, owners, sorted, least) {
            n - 1
        } else {
            least
        }
    }
}

/// Where everything wanted is owned and nobody holds two more than another, the owners are
/// balanced.
proof fn lemma_even_is_balanced(
    all: Seq<(Seq<char>, i32)>,
    owners: Seq<Option<int>>,
    sorted: Seq<Member>,
)
    requires
        group::ids_differ(sorted),
        same_interest(sorted),
        0 < sorted.len(),
        assignor::apt(all, owners, sorted),
        forall|i: int|
            0 <= i < all.len() && group::wants(sorted[0], (#[trigger] all[i]).0) ==> owners[i]
                is Some,
        forall|i: int, j: int|
            0 <= i < sorted.len() && 0 <= j < sorted.len() ==> #[trigger] holding(
                all,
                owners,
                sorted,
                i,
            ) <= #[trigger] holding(all, owners, sorted, j) + 1,
    ensures
        balanced(all, owners, sorted),
{
    let size = sorted.len();
    let wanted = sticky::wanted_count(all, sorted[0], all.len()) as int;
    let least = lemma_somebody_holds_least(all, owners, sorted, size);
    let base = holding(all, owners, sorted, least);
    lemma_owned_is_wanted(all, owners, sorted, 0, all.len());
    lemma_together(all, owners, sorted, all.len());
    lemma_sums(all, owners, sorted, base, size);
    assert forall|j: int| 0 <= j < size implies #[trigger] holding(all, owners, sorted, j) <= base
        + 1 by {
        assert(holding(all, owners, sorted, least) >= base);
    }
    let more = larger(all, owners, sorted, base, size);
    assert(wanted == base * size + more);
    lemma_larger_is_not_all(all, owners, sorted, base, least, size);
    vstd::arithmetic::div_mod::lemma_fundamental_div_mod_converse(
        wanted,
        size as int,
        base,
        more as int,
    );
}

proof fn lemma_larger_is_not_all(
    all: Seq<(Seq<char>, i32)>,
    owners: Seq<Option<int>>,
    sorted: Seq<Member>,
    base: int,
    j: int,
    n: nat,
)
    requires
        0 <= j < n,
        holding(all, owners, sorted, j) <= base,
    ensures
        larger(all, owners, sorted, base, n) < n,
    decreases n,
{
    if j < n - 1 {
        lemma_larger_is_not_all(all, owners, sorted, base, j, (n - 1) as nat);
    } else {
        lemma_larger_grows(all, owners, sorted, base, 0, (n - 1) as nat);
    }
}

/// Whether the members' live claims cover every partition that they want exactly once, and
/// nothing else.
pub open spec fn cover_once(members: Seq<Member>, topics: Seq<(Seq<char>, i32)>) -> bool {
    let all = group::every_slot(topics);
    &&& forall|j: int|
        0 <= j < members.len() ==> sticky::live_claims_of(
            members,
            (#[trigger] members[j]).id,
        ).no_duplicates()
    &&& forall|j: int, slot: (Seq<char>, i32)|
        0 <= j < members.len() && #[trigger] sticky::live_claims_of(members, members[j].id).contains(slot)
            ==> all.contains(slot) && group::wants(members[j], slot.0)
    &&& forall|i: int, j: int, slot: (Seq<char>, i32)|
        0 <= i < members.len() && 0 <= j < members.len() && #[trigger] sticky::live_claims_of(
            members,
            members[i].id,
        ).contains(slot) && #[trigger] sticky::live_claims_of(members, members[j].id).contains(slot) ==> i
            == j
    &&& forall|i: int|
        0 <= i < all.len() && assignor::somebody_wants(members, (#[trigger] all[i]).0) ==> exists|j: int|
            0 <= j < members.len() && sticky::live_claims_of(members, (#[trigger] members[j]).id).contains(
                all[i],
            )
}

/// `sticky` leaves a balanced group alone: members that hold every partition they want once,
/// nobody two more than somebody else that wants one of its partitions, get exactly what they
/// hold, whatever topics they want.
pub proof fn law_sticky_leaves_a_balanced_group_alone(
    members: Seq<Member>,
    topics: Seq<(Seq<char>, i32)>,
    k: int,
)
    requires
        group::ascending(topics),
        group::ids_differ(members),
        cover_once(members, topics),
        forall|i: int, j: int, slot: (Seq<char>, i32)|
            0 <= i < members.len() && 0 <= j < members.len() && #[trigger] sticky::live_claims_of(
                members,
                members[i].id,
            ).contains(slot) && #[trigger] group::wants(members[j], slot.0) ==> sticky::live_claims_of(
                members,
                members[i].id,
            ).len() <= sticky::live_claims_of(members, members[j].id).len() + 1,
        0 <= k < members.len(),
    ensures
        ({
            let given = StickyAssignor.decides(members, topics)[members[k].id];
            let claims = sticky::live_claims_of(members, members[k].id);
            &&& given.no_duplicates()
            &&& given.len() == claims.len()
            &&& forall|slot: (Seq<char>, i32)| #[trigger]
                given.contains(slot) <==> claims.contains(slot)
        }),
{
    let all = group::every_slot(topics);
    let sorted = group::ordered(members);
    assignor::lemma_slots_distinct(topics, topics.len());
    group::law_members_are_ordered(members, members.len());
    group::lemma_ordered_ids_differ(members);
    assert(members.take(members.len() as int) =~= members);
    let owners = Seq::new(
        all.len(),
        |i: int|
            if exists|j: int|
                0 <= j < sorted.len() && sticky::live_claims_of(
                    members,
                    (#[trigger] sorted[j]).id,
                ).contains(all[i]) {
                Some(
                    choose|j: int|
                        0 <= j < sorted.len() && sticky::live_claims_of(
                            members,
                            (#[trigger] sorted[j]).id,
                        ).contains(all[i]),
                )
            } else {
                None
            },
    );
    lemma_claims_are_owned(members, topics, owners);
    lemma_claims_name_the_owners(all, owners, members);
    assert forall|i: int, j: int|
        0 <= i < all.len() && 0 <= j < sorted.len() && (#[trigger] owners[i]) is Some
            && group::wants(#[trigger] sorted[j], all[i].0) implies sticky::held(
        owners,
        sorted,
        sorted[owners[i].unwrap()].id,
        all.len(),
    ) <= sticky::held(owners, sorted, sorted[j].id, all.len()) + 1 by {
        let o = owners[i].unwrap();
        lemma_claimed_len(all, owners, members, o);
        lemma_claimed_len(all, owners, members, j);
        let a = place_of(members, o);
        let b = place_of(members, j);
        assert(members[a] == sorted[o] && members[b] == sorted[j]);
        assert(sticky::live_claims_of(members, members[a].id).contains(all[i]));
        assert(group::wants(members[b], all[i].0));
    }
    lemma_nothing_to_feed(all, sorted, owners, all.len());
    assert(sticky::level(all, sorted, sticky::undisturbed(all, members)));
    let target = sticky::sticky_owners(all, members);
    assert(target =~= owners);
    let id = members[k].id;
    group::lemma_same_ids(members, id);
    assert(group::has_id(members, id));
    assert(members.contains(members[k]));
    assert(sorted.contains(members[k]));
    let at = choose|at: int| 0 <= at < sorted.len() && sorted[at] == members[k];
    let claims = sticky::live_claims_of(members, id);
    let given = group::share(all, owners, sorted, id, all.len());
    lemma_claimed_len(all, owners, members, at);
    lemma_share_len(all, owners, sorted, id, all.len());
    assignor::lemma_share_no_duplicates(all, owners, sorted, id, all.len());
    assert forall|slot: (Seq<char>, i32)| #[trigger]
        given.contains(slot) <==> claims.contains(slot) by {
        assignor::lemma_share_contains(all, owners, sorted, id, all.len(), slot);
        assert(sticky::live_claims_of(members, sorted[at].id) == claims);
        if given.contains(slot) {
            let i = choose|i: int|
                0 <= i < all.len() && #[trigger] all[i] == slot && owners[i] is Some
                    && sorted[owners[i].unwrap()].id == id;
            if owners[i].unwrap() != at {
                assert(sorted[owners[i].unwrap()].id != sorted[at].id);
            }
            assert(all[i] == slot && owners[i] == Some(at));
        }
        if claims.contains(slot) {
            let i = choose|i: int|
                0 <= i < all.len() && #[trigger] all[i] == slot && owners[i] == Some(at);
            assert(all[i] == slot && owners[i] is Some);
        }
    }
}

/// Where the member at place `i` of the ordered ones stands among the members.
spec fn place_of(members: Seq<Member>, i: int) -> int {
    choose|a: int| 0 <= a < members.len() && members[a] == group::ordered(members)[i]
}

proof fn lemma_claims_are_owned(
    members: Seq<Member>,
    topics: Seq<(Seq<char>, i32)>,
    owners: Seq<Option<int>>,
)
    requires
        group::ids_differ(members),
        cover_once(members, topics),
        owners.len() == group::every_slot(topics).len(),
        forall|i: int|
            0 <= i < owners.len() ==> {
                let sorted = group::ordered(members);
                let slot = group::every_slot(topics)[i];
                match #[trigger] owners[i] {
                    Some(o) => 0 <= o < sorted.len() && sticky::live_claims_of(
                        members,
                        sorted[o].id,
                    ).contains(slot),
                    None => forall|j: int|
                        0 <= j < sorted.len() ==> !sticky::live_claims_of(
                            members,
                            (#[trigger] sorted[j]).id,
                        ).contains(slot),
                }
            },
    ensures
        assignor::apt(group::every_slot(topics), owners, group::ordered(members)),
        claimed(group::every_slot(topics), owners, members),
        assignor::complete(group::every_slot(topics), owners, group::ordered(members)),
        forall|i: int|
            0 <= i < owners.len() && group::ordered(members).len() > 0 && group::wants(
                group::ordered(members)[0],
                (#[trigger] group::every_slot(topics)[i]).0,
            ) ==> owners[i] is Some,
        forall|i: int|
            0 <= i < group::ordered(members).len() ==> 0 <= #[trigger] place_of(members, i)
                < members.len() && members[place_of(members, i)] == group::ordered(members)[i],
{
    let all = group::every_slot(topics);
    let sorted = group::ordered(members);
    group::law_members_are_ordered(members, members.len());
    group::lemma_ordered_ids_differ(members);
    assert(members.take(members.len() as int) =~= members);
    assert forall|i: int| 0 <= i < sorted.len() implies 0 <= #[trigger] place_of(members, i)
        < members.len() && members[place_of(members, i)] == sorted[i] by {
        assert(sorted.contains(sorted[i]));
    }
    assert forall|i: int| 0 <= i < owners.len() implies ((#[trigger] owners[i]) matches Some(o)
        ==> 0 <= o < sorted.len() && group::wants(sorted[o], all[i].0)) by {
        if let Some(o) = owners[i] {
            let a = place_of(members, o);
            assert(members[a] == sorted[o]);
            assert(sticky::live_claims_of(members, members[a].id).contains(all[i]));
        }
    }
    assert forall|j: int| 0 <= j < sorted.len() implies ({
        let claims = sticky::live_claims_of(members, (#[trigger] sorted[j]).id);
        &&& claims.no_duplicates()
        &&& forall|slot: (Seq<char>, i32)| #[trigger]
            claims.contains(slot) <==> exists|i: int|
                0 <= i < all.len() && #[trigger] all[i] == slot && owners[i] == Some(j)
    }) by {
        let a = place_of(members, j);
        assert(members[a] == sorted[j]);
        let claims = sticky::live_claims_of(members, sorted[j].id);
        assert forall|slot: (Seq<char>, i32)| #[trigger]
            claims.contains(slot) <==> exists|i: int|
                0 <= i < all.len() && #[trigger] all[i] == slot && owners[i] == Some(j) by {
            if claims.contains(slot) {
                assert(sticky::live_claims_of(members, members[a].id).contains(slot));
                assert(all.contains(slot));
                let i = choose|i: int| 0 <= i < all.len() && all[i] == slot;
                assert(owners[i] is Some || owners[i] is None);
                assert(owners[i] is Some) by {
                    assert(sticky::live_claims_of(members, sorted[j].id).contains(all[i]));
                }
                let o = owners[i].unwrap();
                let b = place_of(members, o);
                assert(members[b] == sorted[o]);
                assert(sticky::live_claims_of(members, members[b].id).contains(slot));
                assert(a == b);
                if o != j {
                    assert(sorted[o].id != sorted[j].id);
                }
                assert(all[i] == slot && owners[i] == Some(j));
            }
            if exists|i: int|
                0 <= i < all.len() && #[trigger] all[i] == slot && owners[i] == Some(j) {
                let i = choose|i: int|
                    0 <= i < all.len() && #[trigger] all[i] == slot && owners[i] == Some(j);
                assert(owners[i] is Some);
            }
        }
    }
    assert forall|i: int| 0 <= i < owners.len() && assignor::somebody_wants(sorted, all[i].0) implies (
    #[trigger] owners[i]) is Some by {
        let j = choose|j: int|
            0 <= j < sorted.len() && group::wants(#[trigger] sorted[j], all[i].0);
        let a = place_of(members, j);
        assert(group::wants(members[a], all[i].0));
        assert(assignor::somebody_wants(members, all[i].0));
        let b = choose|b: int|
            0 <= b < members.len() && sticky::live_claims_of(members, (#[trigger] members[b]).id).contains(
                all[i],
            );
        assert(members.contains(members[b]));
        assert(sorted.contains(members[b]));
        let c = choose|c: int| 0 <= c < sorted.len() && sorted[c] == members[b];
        assert(sticky::live_claims_of(members, sorted[c].id).contains(all[i]));
    }
    assert forall|i: int|
        0 <= i < owners.len() && sorted.len() > 0 && group::wants(
            sorted[0],
            (#[trigger] all[i]).0,
        ) implies owners[i] is Some by {
        assert(assignor::somebody_wants(sorted, all[i].0));
    }
}

/// A member that comes back, in generation `generation`, holding what it was given.
pub open spec fn rejoined(
    member: Member,
    given: Map<Seq<char>, Seq<(Seq<char>, i32)>>,
    generation: i32,
) -> Member {
    Member { owned: given[member.id], generation, ..member }
}

/// All members come back, each holding what it was given.
pub open spec fn all_rejoined(
    members: Seq<Member>,
    given: Map<Seq<char>, Seq<(Seq<char>, i32)>>,
    generation: i32,
) -> Seq<Member> {
    members.map_values(|m: Member| rejoined(m, given, generation))
}

proof fn lemma_rejoined_place(
    sorted: Seq<Member>,
    given: Map<Seq<char>, Seq<(Seq<char>, i32)>>,
    generation: i32,
    id: Seq<char>,
    n: int,
)
    requires
        n <= sorted.len(),
    ensures
        group::place(all_rejoined(sorted, given, generation), id, n) == group::place(sorted, id, n),
        0 <= n ==> 0 <= group::place(sorted, id, n) <= n,
    decreases n,
{
    if n > 0 {
        lemma_rejoined_place(sorted, given, generation, id, n - 1);
    }
}

/// Members that come back stand in the order that they stood in.
proof fn lemma_rejoined_order(
    members: Seq<Member>,
    given: Map<Seq<char>, Seq<(Seq<char>, i32)>>,
    generation: i32,
    n: nat,
)
    requires
        n <= members.len(),
    ensures
        group::in_order(all_rejoined(members, given, generation), n) == all_rejoined(
            group::in_order(members, n),
            given,
            generation,
        ),
        group::in_order(members, n).len() == n,
    decreases n,
{
    let back = all_rejoined(members, given, generation);
    if n == 0 {
        assert(group::in_order(back, 0) =~= all_rejoined(
            group::in_order(members, 0),
            given,
            generation,
        ));
    } else {
        lemma_rejoined_order(members, given, generation, (n - 1) as nat);
        let earlier = group::in_order(members, (n - 1) as nat);
        lemma_rejoined_place(
            earlier,
            given,
            generation,
            members[n - 1].id,
            earlier.len() as int,
        );
        assert(group::in_order(back, n) =~= all_rejoined(
            group::in_order(members, n),
            given,
            generation,
        ));
    }
}

proof fn lemma_rejoined_wants(
    all: Seq<(Seq<char>, i32)>,
    sorted: Seq<Member>,
    given: Map<Seq<char>, Seq<(Seq<char>, i32)>>,
    generation: i32,
    k: int,
    n: nat,
)
    requires
        n <= all.len(),
        0 <= k < sorted.len(),
    ensures
        sticky::wanted_count(all, all_rejoined(sorted, given, generation)[k], n) == sticky::wanted_count(
            all,
            sorted[k],
            n,
        ),
    decreases n,
{
    if n > 0 {
        lemma_rejoined_wants(all, sorted, given, generation, k, (n - 1) as nat);
    }
}

proof fn lemma_rejoined_held(
    all: Seq<(Seq<char>, i32)>,
    owners: Seq<Option<int>>,
    sorted: Seq<Member>,
    given: Map<Seq<char>, Seq<(Seq<char>, i32)>>,
    generation: i32,
    id: Seq<char>,
    n: nat,
)
    requires
        assignor::apt(all, owners, sorted),
        n <= all.len(),
    ensures
        sticky::held(owners, all_rejoined(sorted, given, generation), id, n) == sticky::held(
            owners,
            sorted,
            id,
            n,
        ),
    decreases n,
{
    if n > 0 {
        lemma_rejoined_held(all, owners, sorted, given, generation, id, (n - 1) as nat);
        if let Some(o) = owners[n - 1] {
            assert(0 <= o < sorted.len());
        }
    }
}

proof fn lemma_rejoined_larger(
    all: Seq<(Seq<char>, i32)>,
    owners: Seq<Option<int>>,
    sorted: Seq<Member>,
    given: Map<Seq<char>, Seq<(Seq<char>, i32)>>,
    generation: i32,
    base: int,
    n: nat,
)
    requires
        assignor::apt(all, owners, sorted),
        n <= sorted.len(),
    ensures
        larger(all, owners, all_rejoined(sorted, given, generation), base, n) == larger(
            all,
            owners,
            sorted,
            base,
            n,
        ),
    decreases n,
{
    if n > 0 {
        lemma_rejoined_larger(all, owners, sorted, given, generation, base, (n - 1) as nat);
        lemma_rejoined_held(
            all,
            owners,
            sorted,
            given,
            generation,
            sorted[n - 1].id,
            all.len(),
        );
    }
}

proof fn lemma_highest_alike(members: Seq<Member>, generation: i32, n: nat)
    requires
        n <= members.len(),
        forall|i: int| 0 <= i < members.len() ==> (#[trigger] members[i]).generation == generation,
    ensures
        n > 0 ==> sticky::highest_generation(members, n) == generation,
    decreases n,
{
    if n > 0 {
        lemma_highest_alike(members, generation, (n - 1) as nat);
    }
}

/// What a member that comes back claims is what it was given.
proof fn lemma_rejoined_claims(
    members: Seq<Member>,
    given: Map<Seq<char>, Seq<(Seq<char>, i32)>>,
    generation: i32,
    k: int,
)
    requires
        group::ids_differ(members),
        0 <= generation,
        0 <= k < members.len(),
    ensures
        sticky::live_claims_of(all_rejoined(members, given, generation), members[k].id)
            == given[members[k].id],
{
    let back = all_rejoined(members, given, generation);
    lemma_highest_alike(back, generation, back.len());
    assert(back[k].id == members[k].id);
    assert forall|i: int, j: int|
        0 <= i < back.len() && 0 <= j < back.len() && i != j implies (#[trigger] back[i]).id != (
    #[trigger] back[j]).id by {
        assert(members[i].id != members[j].id);
    }
    lemma_last_with_id(back, k, back.len());
}

/// Members that come back keep all they come back with, where everyone can.
proof fn lemma_rejoined_undisturbed(
    topics: Seq<(Seq<char>, i32)>,
    members: Seq<Member>,
    owners: Seq<Option<int>>,
    generation: i32,
    i: int,
)
    requires
        group::ascending(topics),
        group::ids_differ(members),
        0 <= generation,
        assignor::apt(group::every_slot(topics), owners, group::ordered(members)),
        0 <= i < owners.len(),
        owners[i] is Some,
        ({
            let all = group::every_slot(topics);
            let given = group::shares(all, owners, group::ordered(members));
            let back = all_rejoined(members, given, generation);
            sticky::level(all, group::ordered(back), sticky::undisturbed(all, back))
        }),
    ensures
        ({
            let all = group::every_slot(topics);
            let given = group::shares(all, owners, group::ordered(members));
            sticky::sticky_owners(all, all_rejoined(members, given, generation))[i] == owners[i]
        }),
{
    let all = group::every_slot(topics);
    let sorted = group::ordered(members);
    let given = group::shares(all, owners, sorted);
    let back = all_rejoined(members, given, generation);
    let again = group::ordered(back);
    assignor::lemma_slots_distinct(topics, topics.len());
    lemma_rejoined_order(members, given, generation, members.len());
    assert(again == all_rejoined(sorted, given, generation));
    assert forall|x: int| 0 <= x < owners.len() implies ((#[trigger] owners[x]) matches Some(o)
        ==> 0 <= o < again.len() && group::wants(again[o], all[x].0)) by {
        if let Some(o) = owners[x] {
            assert(group::wants(sorted[o], all[x].0));
        }
    }
    lemma_rejoined_claimed(topics, members, owners, generation);
    lemma_claims_name_the_owners(all, owners, back);
    lemma_fed_apt(all, again, owners, all.len());
}

/// Members that come back with a balanced lot keep all of it.
proof fn lemma_rejoined_keep(
    topics: Seq<(Seq<char>, i32)>,
    members: Seq<Member>,
    owners: Seq<Option<int>>,
    generation: i32,
    i: int,
)
    requires
        group::ascending(topics),
        group::ids_differ(members),
        same_interest(members),
        0 <= generation,
        assignor::apt(group::every_slot(topics), owners, group::ordered(members)),
        balanced(group::every_slot(topics), owners, group::ordered(members)),
        0 <= i < owners.len(),
        owners[i] is Some,
    ensures
        ({
            let all = group::every_slot(topics);
            let given = group::shares(all, owners, group::ordered(members));
            sticky::sticky_owners(all, all_rejoined(members, given, generation))[i] == owners[i]
        }),
{
    let all = group::every_slot(topics);
    let sorted = group::ordered(members);
    let given = group::shares(all, owners, sorted);
    let back = all_rejoined(members, given, generation);
    let again = group::ordered(back);
    assignor::lemma_slots_distinct(topics, topics.len());
    lemma_rejoined_order(members, given, generation, members.len());
    assert(again == all_rejoined(sorted, given, generation));
    group::law_members_are_ordered(members, members.len());
    group::lemma_ordered_ids_differ(members);
    assert(members.take(members.len() as int) =~= members);
    assert(assignor::apt(all, owners, again)) by {
        assert forall|x: int| 0 <= x < owners.len() implies ((#[trigger] owners[x]) matches Some(o)
            ==> 0 <= o < again.len() && group::wants(again[o], all[x].0)) by {
            if let Some(o) = owners[x] {
                assert(group::wants(sorted[o], all[x].0));
            }
        }
    }
    lemma_rejoined_wants(all, sorted, given, generation, 0, all.len());
    lemma_rejoined_larger(
        all,
        owners,
        sorted,
        given,
        generation,
        even_share(all, sorted),
        sorted.len(),
    );
    assert(balanced(all, owners, again)) by {
        assert forall|j: int| 0 <= j < again.len() implies #[trigger] holding(
            all,
            owners,
            again,
            j,
        ) <= even_share(all, again) + 1 by {
            lemma_rejoined_held(
                all,
                owners,
                sorted,
                given,
                generation,
                sorted[j].id,
                all.len(),
            );
            assert(holding(all, owners, sorted, j) <= even_share(all, sorted) + 1);
        }
    }
    assert(group::ids_differ(back)) by {
        assert forall|a: int, b: int|
            0 <= a < back.len() && 0 <= b < back.len() && a != b implies (#[trigger] back[a]).id
            != (#[trigger] back[b]).id by {
            assert(members[a].id != members[b].id);
        }
    }
    assert(same_interest(back)) by {
        assert forall|a: int, b: int, topic: Seq<char>|
            0 <= a < back.len() && 0 <= b < back.len() && #[trigger] group::wants(
                back[a],
                topic,
            ) implies #[trigger] group::wants(back[b], topic) by {
            assert(group::wants(members[a], topic));
            assert(group::wants(members[b], topic));
        }
    }
    lemma_rejoined_claimed(topics, members, owners, generation);
    lemma_balanced_claims_stay(all, owners, back, i);
}

/// What members that come back claim is what they were given.
proof fn lemma_rejoined_claimed(
    topics: Seq<(Seq<char>, i32)>,
    members: Seq<Member>,
    owners: Seq<Option<int>>,
    generation: i32,
)
    requires
        group::ascending(topics),
        group::ids_differ(members),
        0 <= generation,
        assignor::apt(group::every_slot(topics), owners, group::ordered(members)),
    ensures
        ({
            let all = group::every_slot(topics);
            let given = group::shares(all, owners, group::ordered(members));
            claimed(all, owners, all_rejoined(members, given, generation))
        }),
{
    let all = group::every_slot(topics);
    let sorted = group::ordered(members);
    let given = group::shares(all, owners, sorted);
    let back = all_rejoined(members, given, generation);
    let again = group::ordered(back);
    assignor::lemma_slots_distinct(topics, topics.len());
    lemma_rejoined_order(members, given, generation, members.len());
    assert(again == all_rejoined(sorted, given, generation));
    group::law_members_are_ordered(members, members.len());
    group::lemma_ordered_ids_differ(members);
    assert(members.take(members.len() as int) =~= members);
    assert forall|j: int| 0 <= j < again.len() implies ({
        let claims = sticky::live_claims_of(back, (#[trigger] again[j]).id);
        &&& claims.no_duplicates()
        &&& forall|slot: (Seq<char>, i32)| #[trigger]
            claims.contains(slot) <==> exists|i: int|
                0 <= i < all.len() && #[trigger] all[i] == slot && owners[i] == Some(j)
    }) by {
        let id = sorted[j].id;
        assert(sorted.contains(sorted[j]));
        let m = choose|m: int| 0 <= m < members.len() && members[m] == sorted[j];
        lemma_rejoined_claims(members, given, generation, m);
        assert(group::has_id(sorted, id));
        let claims = sticky::live_claims_of(back, again[j].id);
        assert(claims == group::share(all, owners, sorted, id, all.len()));
        assignor::lemma_share_no_duplicates(all, owners, sorted, id, all.len());
        assert forall|slot: (Seq<char>, i32)| #[trigger]
            claims.contains(slot) <==> exists|i: int|
                0 <= i < all.len() && #[trigger] all[i] == slot && owners[i] == Some(j) by {
            assignor::lemma_share_contains(all, owners, sorted, id, all.len(), slot);
            if claims.contains(slot) {
                let i = choose|i: int|
                    0 <= i < all.len() && #[trigger] all[i] == slot && owners[i] is Some
                        && sorted[owners[i].unwrap()].id == id;
                if owners[i].unwrap() != j {
                    assert(sorted[owners[i].unwrap()].id != sorted[j].id);
                }
                assert(all[i] == slot && owners[i] == Some(j));
            }
            if exists|i: int|
                0 <= i < all.len() && #[trigger] all[i] == slot && owners[i] == Some(j) {
                let i = choose|i: int|
                    0 <= i < all.len() && #[trigger] all[i] == slot && owners[i] == Some(j);
                assert(all[i] == slot && owners[i] is Some);
            }
        }
    }
}

proof fn lemma_rejoined_shares(
    all: Seq<(Seq<char>, i32)>,
    owners: Seq<Option<int>>,
    sorted: Seq<Member>,
    given: Map<Seq<char>, Seq<(Seq<char>, i32)>>,
    generation: i32,
    id: Seq<char>,
    n: nat,
)
    requires
        assignor::apt(all, owners, sorted),
        n <= all.len(),
    ensures
        group::share(all, owners, all_rejoined(sorted, given, generation), id, n) == group::share(
            all,
            owners,
            sorted,
            id,
            n,
        ),
    decreases n,
{
    if n > 0 {
        lemma_rejoined_shares(all, owners, sorted, given, generation, id, (n - 1) as nat);
        if let Some(o) = owners[n - 1] {
            assert(0 <= o < sorted.len());
        }
    }
}

/// `sticky`, run again when nothing has changed, moves nothing: members that hold what they
/// were given are given it again, whatever topics they want.
pub proof fn law_sticky_moves_nothing_twice(
    members: Seq<Member>,
    topics: Seq<(Seq<char>, i32)>,
    generation: i32,
)
    requires
        group::ascending(topics),
        group::ids_differ(members),
        0 <= generation,
    ensures
        ({
            let given = StickyAssignor.decides(members, topics);
            StickyAssignor.decides(all_rejoined(members, given, generation), topics) == given
        }),
{
    let all = group::every_slot(topics);
    let sorted = group::ordered(members);
    let owners = sticky::sticky_owners(all, members);
    let given = StickyAssignor.decides(members, topics);
    let back = all_rejoined(members, given, generation);
    let again = group::ordered(back);
    let target = sticky::sticky_owners(all, back);
    assignor::lemma_slots_distinct(topics, topics.len());
    lemma_rejoined_order(members, given, generation, members.len());
    assert(again == all_rejoined(sorted, given, generation));
    group::law_members_are_ordered(members, members.len());
    lemma_sticky_apt(all, members);
    lemma_rejoined_claimed(topics, members, owners, generation);
    assert(assignor::apt(all, owners, again)) by {
        assert forall|x: int| 0 <= x < owners.len() implies ((#[trigger] owners[x]) matches Some(o)
            ==> 0 <= o < again.len() && group::wants(again[o], all[x].0)) by {
            if let Some(o) = owners[x] {
                assert(group::wants(sorted[o], all[x].0));
            }
        }
    }
    lemma_claims_name_the_owners(all, owners, back);
    assert(sticky::level(all, again, owners)) by {
        assert forall|i: int, k: int|
            0 <= i < all.len() && 0 <= k < again.len() && (#[trigger] owners[i]) is Some
                && group::wants(#[trigger] again[k], all[i].0) implies sticky::held(
            owners,
            again,
            again[owners[i].unwrap()].id,
            all.len(),
        ) <= sticky::held(owners, again, again[k].id, all.len()) + 1 by {
            let o = owners[i].unwrap();
            assert(0 <= o < sorted.len());
            assert(group::wants(sorted[k], all[i].0));
            lemma_rejoined_held(all, owners, sorted, given, generation, again[o].id, all.len());
            lemma_rejoined_held(all, owners, sorted, given, generation, again[k].id, all.len());
        }
    }
    assert forall|i: int| 0 <= i < all.len() && assignor::somebody_wants(again, all[i].0) implies (
    #[trigger] owners[i]) is Some by {
        let k = choose|k: int| 0 <= k < again.len() && group::wants(#[trigger] again[k], all[i].0);
        assert(group::wants(sorted[k], all[i].0));
        assert(assignor::somebody_wants(sorted, all[i].0));
    }
    lemma_nothing_to_feed(all, again, owners, all.len());
    assert(sticky::level(all, again, sticky::undisturbed(all, back)));
    assert(target == owners);
    let now = StickyAssignor.decides(back, topics);
    assert forall|id: Seq<char>| #[trigger] group::has_id(again, id) == group::has_id(sorted, id) by {
        if group::has_id(again, id) {
            let k = choose|k: int| 0 <= k < again.len() && (#[trigger] again[k]).id == id;
            assert(sorted[k].id == id);
        }
        if group::has_id(sorted, id) {
            let k = choose|k: int| 0 <= k < sorted.len() && (#[trigger] sorted[k]).id == id;
            assert(again[k].id == id);
        }
    }
    assert forall|id: Seq<char>| #[trigger] now.dom().contains(id) implies now[id] == given[id] by {
        assert(group::has_id(again, id));
        lemma_rejoined_shares(all, owners, sorted, given, generation, id, all.len());
    }
    assert(now =~= given);
}

proof fn lemma_published_held(
    all: Seq<(Seq<char>, i32)>,
    members: Seq<Member>,
    id: Seq<char>,
    n: nat,
)
    requires
        n <= all.len(),
    ensures
        sticky::held(assignor::published_owners(all, members), group::ordered(members), id, n) <= sticky::held(
            sticky::sticky_owners(all, members),
            group::ordered(members),
            id,
            n,
        ),
    decreases n,
{
    if n > 0 {
        lemma_published_held(all, members, id, (n - 1) as nat);
    }
}

proof fn lemma_published_larger(
    all: Seq<(Seq<char>, i32)>,
    members: Seq<Member>,
    base: int,
    n: nat,
)
    ensures
        larger(all, assignor::published_owners(all, members), group::ordered(members), base, n) <= larger(
            all,
            sticky::sticky_owners(all, members),
            group::ordered(members),
            base,
            n,
        ),
    decreases n,
{
    if n > 0 {
        lemma_published_larger(all, members, base, (n - 1) as nat);
        lemma_published_held(all, members, group::ordered(members)[n - 1].id, all.len());
    }
}

/// The members' claims, read in turn, name whoever was given a partition.
proof fn lemma_rejoined_holder(
    all: Seq<(Seq<char>, i32)>,
    owners: Seq<Option<int>>,
    members: Seq<Member>,
    generation: i32,
    i: int,
    n: nat,
)
    requires
        all.no_duplicates(),
        assignor::apt(all, owners, group::ordered(members)),
        0 <= i < all.len(),
        n <= members.len(),
    ensures
        ({
            let sorted = group::ordered(members);
            let back = all_rejoined(members, group::shares(all, owners, sorted), generation);
            assignor::current_owner(back, all[i], n) matches Some(id) ==> owners[i] is Some
                && sorted[owners[i].unwrap()].id == id
        }),
    decreases n,
{
    if n > 0 {
        lemma_rejoined_holder(all, owners, members, generation, i, (n - 1) as nat);
        let sorted = group::ordered(members);
        let id = members[n - 1].id;
        group::lemma_same_ids(members, id);
        assert(group::has_id(members, id));
        assignor::lemma_share_contains(all, owners, sorted, id, all.len(), all[i]);
    }
}

/// A cooperative round is completed by the next one: once the members have given up what
/// they lost and come back with the rest, everything wanted is given out, and everyone is
/// given at least what it held. So it is where all members want the same topics, and
/// otherwise where everyone can keep all that it comes back with.
pub proof fn law_the_next_cooperative_round_completes_the_move(
    members: Seq<Member>,
    topics: Seq<(Seq<char>, i32)>,
    generation: i32,
)
    requires
        group::ascending(topics),
        group::ids_differ(members),
        same_interest(members) || ({
            let given = CooperativeStickyAssignor.decides(members, topics);
            let back = all_rejoined(members, given, generation);
            let all = group::every_slot(topics);
            sticky::level(all, group::ordered(back), sticky::undisturbed(all, back))
        }),
        0 <= generation,
    ensures
        ({
            let given = CooperativeStickyAssignor.decides(members, topics);
            let back = all_rejoined(members, given, generation);
            let next = CooperativeStickyAssignor.decides(back, topics);
            &&& next == StickyAssignor.decides(back, topics)
            &&& assignor::never_twice(next, back, topics)
            &&& assignor::all_given(next, back, topics)
            &&& forall|id: Seq<char>, slot: (Seq<char>, i32)|
                given.dom().contains(id) && #[trigger] given[id].contains(slot)
                    ==> next.dom().contains(id) && next[id].contains(slot)
        }),
{
    let all = group::every_slot(topics);
    let sorted = group::ordered(members);
    let owners = assignor::published_owners(all, members);
    let given = CooperativeStickyAssignor.decides(members, topics);
    let back = all_rejoined(members, given, generation);
    let again = group::ordered(back);
    let target = sticky::sticky_owners(all, back);
    assignor::lemma_slots_distinct(topics, topics.len());
    lemma_rejoined_order(members, given, generation, members.len());
    group::law_members_are_ordered(members, members.len());
    lemma_sticky_apt(all, members);
    lemma_sticky_apt(all, back);
    assert(assignor::apt(all, owners, sorted)) by {
        assert forall|i: int| 0 <= i < owners.len() implies ((#[trigger] owners[i]) matches Some(k)
            ==> 0 <= k < sorted.len() && group::wants(sorted[k], all[i].0)) by {
            assert(sticky::sticky_owners(all, members)[i] is None || sticky::sticky_owners(all, members)[i] is Some);
        }
    }
    if members.len() > 0 && same_interest(members) {
        lemma_sticky_is_fair(all, members);
        let base = even_share(all, sorted);
        assert forall|j: int| 0 <= j < sorted.len() implies #[trigger] holding(
            all,
            owners,
            sorted,
            j,
        ) <= base + 1 by {
            lemma_published_held(all, members, sorted[j].id, all.len());
            assert(holding(all, sticky::sticky_owners(all, members), sorted, j) <= base + 1);
        }
        lemma_published_larger(all, members, base, sorted.len());
    }
    assert forall|i: int| 0 <= i < owners.len() && (#[trigger] owners[i]) is Some implies target[i]
        == owners[i] by {
        if same_interest(members) {
            lemma_rejoined_keep(topics, members, owners, generation, i);
        } else {
            lemma_rejoined_undisturbed(topics, members, owners, generation, i);
        }
    }
    let next = assignor::published_owners(all, back);
    assert forall|i: int| 0 <= i < all.len() implies #[trigger] next[i] == target[i] by {
        lemma_rejoined_holder(all, owners, members, generation, i, back.len());
        if let Some(holder) = assignor::current_owner(back, all[i], back.len()) {
            assert(target[i] == owners[i]);
            let k = owners[i].unwrap();
            assert(again[k].id == sorted[k].id);
        }
    }
    assert(next =~= target);
    law_sticky_assigns_exactly_once(back, topics);
    let result = CooperativeStickyAssignor.decides(back, topics);
    assert forall|id: Seq<char>, slot: (Seq<char>, i32)|
        given.dom().contains(id) && #[trigger] given[id].contains(slot) implies result.dom().contains(
        id,
    ) && result[id].contains(slot) by {
        assignor::lemma_share_contains(all, owners, sorted, id, all.len(), slot);
        let i = choose|i: int|
            0 <= i < all.len() && #[trigger] all[i] == slot && owners[i] is Some
                && sorted[owners[i].unwrap()].id == id;
        assert(target[i] == owners[i]);
        let k = owners[i].unwrap();
        assert(again[k].id == id);
        assert(group::has_id(again, id));
        assert(target[i] == Some(k));
        assignor::lemma_share_contains(all, target, again, id, all.len(), slot);
    }
}

} // verus!
