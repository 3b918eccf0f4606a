//! Grouping by name, as requests carry the partitions of a topic.
use crate::names;
use vstd::prelude::*;

verus! {

/// The values under one name among the first `n` entries, in their order.
pub open spec fn under<W>(entries: Seq<(Seq<char>, W)>, name: Seq<char>, n: nat) -> Seq<W>
    decreases n,
{
    if n == 0 {
        Seq::empty()
    } else {
        let earlier = under(entries, name, (n - 1) as nat);
        if entries[n - 1].0 == name {
            earlier.push(entries[n - 1].1)
        } else {
            earlier
        }
    }
}

/// Whether names ascend, each once.
pub open spec fn ascending_names<W>(groups: Seq<(Seq<char>, Seq<W>)>) -> bool {
    forall|i: int, j: int|
        0 <= i < j < groups.len() ==> names::before(
            (#[trigger] groups[i]).0,
            (#[trigger] groups[j]).0,
        )
}

/// Whether there is a group under a name.
pub open spec fn has_group<W>(groups: Seq<(Seq<char>, Seq<W>)>, name: Seq<char>) -> bool {
    exists|g: int| 0 <= g < groups.len() && (#[trigger] groups[g]).0 == name
}

/// Whether the groups are those of the entries: the names ascend, each once; a group
/// holds all values under its name in their order; and there is a group for exactly the
/// names that occur.
pub open spec fn groups_of<W>(
    entries: Seq<(Seq<char>, W)>,
    groups: Seq<(Seq<char>, Seq<W>)>,
) -> bool {
    &&& ascending_names(groups)
    &&& forall|g: int|
        0 <= g < groups.len() ==> (#[trigger] groups[g]).1 == under(
            entries,
            groups[g].0,
            entries.len(),
        ) && groups[g].1.len() > 0
    &&& forall|i: int| 0 <= i < entries.len() ==> has_group(groups, (#[trigger] entries[i]).0)
}

/// What a list of named values stands for.
pub open spec fn entry_views<V>(entries: Seq<(String, V)>) -> Seq<(Seq<char>, V)> {
    Seq::new(entries.len(), |i: int| (entries[i].0@, entries[i].1))
}

/// What a list of groups stands for.
pub open spec fn group_views<V>(groups: Seq<(String, Vec<V>)>) -> Seq<(Seq<char>, Seq<V>)> {
    Seq::new(groups.len(), |g: int| (groups[g].0@, groups[g].1@))
}

proof fn lemma_under_mapped<V, W>(
    entries: Seq<(Seq<char>, V)>,
    mapped: Seq<(Seq<char>, W)>,
    f: spec_fn(V) -> W,
    name: Seq<char>,
    n: nat,
)
    requires
        mapped.len() == entries.len(),
        n <= entries.len(),
        forall|i: int|
            0 <= i < entries.len() ==> #[trigger] mapped[i] == (entries[i].0, f(entries[i].1)),
    ensures
        under(mapped, name, n) == under(entries, name, n).map_values(f),
    decreases n,
{
    if n > 0 {
        lemma_under_mapped(entries, mapped, f, name, (n - 1) as nat);
        assert(mapped[n - 1] == (entries[n - 1].0, f(entries[n - 1].1)));
    }
    assert(under(mapped, name, n) =~= under(entries, name, n).map_values(f));
}

/// Groups of values stay groups when each value is taken for another.
pub proof fn lemma_groups_mapped<V, W>(
    entries: Seq<(Seq<char>, V)>,
    groups: Seq<(Seq<char>, Seq<V>)>,
    mapped: Seq<(Seq<char>, W)>,
    mapped_groups: Seq<(Seq<char>, Seq<W>)>,
    f: spec_fn(V) -> W,
)
    requires
        groups_of(entries, groups),
        mapped.len() == entries.len(),
        mapped_groups.len() == groups.len(),
        forall|i: int|
            0 <= i < entries.len() ==> #[trigger] mapped[i] == (entries[i].0, f(entries[i].1)),
        forall|g: int|
            0 <= g < groups.len() ==> #[trigger] mapped_groups[g] == (
                groups[g].0,
                groups[g].1.map_values(f),
            ),
    ensures
        groups_of(mapped, mapped_groups),
{
    assert forall|i: int, j: int| 0 <= i < j < mapped_groups.len() implies names::before(
        (#[trigger] mapped_groups[i]).0,
        (#[trigger] mapped_groups[j]).0,
    ) by {
        assert(names::before(groups[i].0, groups[j].0));
    }
    assert forall|g: int| 0 <= g < mapped_groups.len() implies (#[trigger] mapped_groups[g]).1
        == under(mapped, mapped_groups[g].0, mapped.len()) && mapped_groups[g].1.len() > 0 by {
        assert(groups[g].1 == under(entries, groups[g].0, entries.len()));
        lemma_under_mapped(entries, mapped, f, groups[g].0, entries.len());
    }
    assert forall|i: int| 0 <= i < mapped.len() implies has_group(
        mapped_groups,
        (#[trigger] mapped[i]).0,
    ) by {
        assert(has_group(groups, entries[i].0));
        let g = choose|g: int| 0 <= g < groups.len() && (#[trigger] groups[g]).0 == entries[i].0;
        assert(mapped_groups[g].0 == mapped[i].0);
    }
}

/// The values under one name among the first `n` entries, in their order.
spec fn listed<V>(
    entries: Seq<(String, V)>,
    name: Seq<char>,
    n: nat,
) -> Seq<V>
    decreases n,
{
    if n == 0 {
        Seq::empty()
    } else {
        let earlier = listed(entries, name, (n - 1) as nat);
        if entries[n - 1].0@ == name {
            earlier.push(entries[n - 1].1)
        } else {
            earlier
        }
    }
}

/// Whether names ascend, each once.
spec fn in_name_order<V>(groups: Seq<(String, Vec<V>)>) -> bool {
    forall|i: int, j: int|
        0 <= i < j < groups.len() ==> names::before(
            (#[trigger] groups[i]).0@,
            (#[trigger] groups[j]).0@,
        )
}

/// Whether the groups are those of the first `n` entries: the names ascend, each once;
/// a group holds all values under its name in their order; and there is a group for
/// exactly the names that occur.
spec fn grouped_so_far<V>(
    entries: Seq<(String, V)>,
    groups: Seq<(String, Vec<V>)>,
    n: nat,
) -> bool {
    &&& in_name_order(groups)
    &&& forall|g: int|
        0 <= g < groups.len() ==> (#[trigger] groups[g]).1@ == listed(entries, groups[g].0@, n)
            && groups[g].1@.len() > 0
    &&& forall|i: int|
        0 <= i < n ==> exists|g: int|
            0 <= g < groups.len() && (#[trigger] groups[g]).0@ == (#[trigger] entries[i]).0@
}

proof fn lemma_listed_none<V>(
    entries: Seq<(String, V)>,
    name: Seq<char>,
    n: nat,
)
    requires
        n <= entries.len(),
        forall|i: int| 0 <= i < n ==> (#[trigger] entries[i]).0@ != name,
    ensures
        listed(entries, name, n) == Seq::<V>::empty(),
    decreases n,
{
    if n > 0 {
        lemma_listed_none(entries, name, (n - 1) as nat);
    }
}

/// An entry of a known name joins its group.
proof fn lemma_joins<V>(
    entries: Seq<(String, V)>,
    before: Seq<(String, Vec<V>)>,
    now: Seq<(String, Vec<V>)>,
    i: int,
    g: int,
)
    requires
        0 <= i < entries.len(),
        grouped_so_far(entries, before, i as nat),
        now.len() == before.len(),
        0 <= g < now.len(),
        forall|h: int| 0 <= h < now.len() && h != g ==> now[h] == before[h],
        now[g].0 == before[g].0,
        before[g].0@ == entries[i].0@,
        now[g].1@ == before[g].1@.push(entries[i].1),
    ensures
        grouped_so_far(entries, now, (i + 1) as nat),
{
    assert forall|a: int, b: int| 0 <= a < b < now.len() implies names::before(
        (#[trigger] now[a]).0@,
        (#[trigger] now[b]).0@,
    ) by {
        assert(now[a].0 == before[a].0 && now[b].0 == before[b].0);
    }
    assert forall|h: int| 0 <= h < now.len() implies (#[trigger] now[h]).1@ == listed(
        entries,
        now[h].0@,
        (i + 1) as nat,
    ) && now[h].1@.len() > 0 by {
        assert(before[h].1@ == listed(entries, before[h].0@, i as nat));
        if h < g {
            names::law_names_are_ordered(before[h].0@, before[g].0@);
        } else if h > g {
            names::law_names_are_ordered(before[g].0@, before[h].0@);
        }
    }
    assert forall|k: int| 0 <= k < i + 1 implies exists|h: int|
        0 <= h < now.len() && (#[trigger] now[h]).0@ == (#[trigger] entries[k]).0@ by {
        if k < i {
            let h = choose|h: int|
                0 <= h < before.len() && (#[trigger] before[h]).0@ == entries[k].0@;
            assert(now[h].0@ == entries[k].0@);
        } else {
            assert(now[g].0@ == entries[k].0@);
        }
    }
}

/// An entry of a new name starts a group at its place.
proof fn lemma_starts<V>(
    entries: Seq<(String, V)>,
    before: Seq<(String, Vec<V>)>,
    now: Seq<(String, Vec<V>)>,
    i: int,
    g: int,
)
    requires
        0 <= i < entries.len(),
        grouped_so_far(entries, before, i as nat),
        now.len() == before.len() + 1,
        0 <= g <= before.len(),
        forall|h: int| 0 <= h < g ==> now[h] == before[h],
        forall|h: int| g < h < now.len() ==> now[h] == before[h - 1],
        now[g].0@ == entries[i].0@,
        now[g].1@ == seq![entries[i].1],
        forall|h: int| 0 <= h < g ==> names::before((#[trigger] before[h]).0@, entries[i].0@),
        g < before.len() ==> names::before(entries[i].0@, before[g].0@),
    ensures
        grouped_so_far(entries, now, (i + 1) as nat),
{
    let name = entries[i].0@;
    assert forall|h: int| g <= h < before.len() implies names::before(
        name,
        (#[trigger] before[h]).0@,
    ) by {
        if h > g {
            names::law_order_is_transitive(name, before[g].0@, before[h].0@);
        }
    }
    assert forall|a: int, b: int| 0 <= a < b < now.len() implies names::before(
        (#[trigger] now[a]).0@,
        (#[trigger] now[b]).0@,
    ) by {
        let x = if a < g {
            a
        } else {
            a - 1
        };
        let y = if b < g {
            b
        } else {
            b - 1
        };
        if a == g {
            assert(now[b] == before[y]);
        } else if b == g {
            assert(now[a] == before[x]);
        } else {
            assert(now[a] == before[x] && now[b] == before[y]);
        }
    }
    assert forall|k: int| 0 <= k < i implies (#[trigger] entries[k]).0@ != name by {
        let h = choose|h: int|
            0 <= h < before.len() && (#[trigger] before[h]).0@ == entries[k].0@;
        names::law_names_are_ordered(before[h].0@, name);
    }
    lemma_listed_none(entries, name, i as nat);
    assert forall|h: int| 0 <= h < now.len() implies (#[trigger] now[h]).1@ == listed(
        entries,
        now[h].0@,
        (i + 1) as nat,
    ) && now[h].1@.len() > 0 by {
        if h == g {
            assert(now[g].1@ =~= listed(entries, name, (i + 1) as nat));
        } else {
            let x = if h < g {
                h
            } else {
                h - 1
            };
            assert(now[h] == before[x]);
            assert(before[x].1@ == listed(entries, before[x].0@, i as nat));
            names::law_names_are_ordered(before[x].0@, name);
        }
    }
    assert forall|k: int| 0 <= k < i + 1 implies exists|h: int|
        0 <= h < now.len() && (#[trigger] now[h]).0@ == (#[trigger] entries[k]).0@ by {
        if k < i {
            let h = choose|h: int|
                0 <= h < before.len() && (#[trigger] before[h]).0@ == entries[k].0@;
            assert(now[if h < g {
                h
            } else {
                h + 1
            }].0@ == entries[k].0@);
        } else {
            assert(now[g].0@ == entries[k].0@);
        }
    }
}

proof fn lemma_listed_views<V>(entries: Seq<(String, V)>, name: Seq<char>, n: nat)
    requires
        n <= entries.len(),
    ensures
        listed(entries, name, n) == under(entry_views(entries), name, n),
    decreases n,
{
    if n > 0 {
        lemma_listed_views(entries, name, (n - 1) as nat);
    }
}

proof fn lemma_grouped_views<V>(entries: Seq<(String, V)>, groups: Seq<(String, Vec<V>)>)
    requires
        grouped_so_far(entries, groups, entries.len()),
    ensures
        groups_of(entry_views(entries), group_views(groups)),
{
    let seen = entry_views(entries);
    let found = group_views(groups);
    assert forall|i: int, j: int| 0 <= i < j < found.len() implies names::before(
        (#[trigger] found[i]).0,
        (#[trigger] found[j]).0,
    ) by {
        assert(names::before(groups[i].0@, groups[j].0@));
    }
    assert forall|g: int| 0 <= g < found.len() implies (#[trigger] found[g]).1 == under(
        seen,
        found[g].0,
        seen.len(),
    ) && found[g].1.len() > 0 by {
        assert(groups[g].1@ == listed(entries, groups[g].0@, entries.len()));
        lemma_listed_views(entries, groups[g].0@, entries.len());
    }
    assert forall|i: int| 0 <= i < seen.len() implies has_group(found, (#[trigger] seen[i]).0) by {
        assert(entries[i].0@ == seen[i].0);
        let g = choose|g: int|
            0 <= g < groups.len() && (#[trigger] groups[g]).0@ == entries[i].0@;
        assert(found[g].0 == seen[i].0);
    }
}

/// Groups values by name: names in the order of their names, the values of each in
/// the order in which they came.
pub fn grouped<V>(entries: Vec<(String, V)>) -> (groups: Vec<(String, Vec<V>)>)
    ensures
        groups_of(entry_views(entries@), group_views(groups@)),
{
    let ghost all = entries@;
    let mut groups: Vec<(String, Vec<V>)> = Vec::new();
    for entry in it: entries
        invariant
            it.seq() == all,
            grouped_so_far(all, groups@, it.index() as nat),
    {
        let ghost i = it.index() as int;
        let ghost before = groups@;
        let name = entry.0;
        let mut g: usize = 0;
        while g < groups.len() && names::is_before(groups[g].0.as_str(), name.as_str())
            invariant
                g <= groups@.len(),
                groups@ == before,
                forall|h: int|
                    0 <= h < g ==> names::before((#[trigger] before[h]).0@, name@),
            decreases groups@.len() - g,
        {
            g = g + 1;
        }
        let there = g < groups.len() && names::same(groups[g].0.as_str(), name.as_str());
        if there {
            groups[g].1.push(entry.1);
            proof {
                lemma_joins(all, before, groups@, i, g as int);
            }
        } else {
            proof {
                if g < before.len() {
                    names::law_names_are_ordered(before[g as int].0@, name@);
                }
            }
            let mut list: Vec<V> = Vec::new();
            list.push(entry.1);
            groups.insert(g, (name, list));
            proof {
                assert(groups@[g as int].1@ =~= seq![all[i].1]);
                lemma_starts(all, before, groups@, i, g as int);
            }
        }
    }
    proof {
        lemma_grouped_views(all, groups@);
    }
    groups
}

/// The values of the first `n` groups, each with its name.
pub open spec fn flat<W>(groups: Seq<(Seq<char>, Seq<W>)>, n: nat) -> Seq<(Seq<char>, W)>
    decreases n,
{
    if n == 0 {
        Seq::empty()
    } else {
        flat(groups, (n - 1) as nat) + named(groups[n - 1].0, groups[n - 1].1)
    }
}

/// Values, each with the same name.
pub open spec fn named<W>(name: Seq<char>, values: Seq<W>) -> Seq<(Seq<char>, W)> {
    values.map_values(|v: W| (name, v))
}

proof fn lemma_under_count<W>(
    entries: Seq<(Seq<char>, W)>,
    name: Seq<char>,
    value: W,
    n: nat,
)
    requires
        n <= entries.len(),
    ensures
        under(entries, name, n).to_multiset().count(value) == entries.take(
            n as int,
        ).to_multiset().count((name, value)),
    decreases n,
{
    broadcast use vstd::seq_lib::group_to_multiset_ensures;

    if n == 0 {
        assert(entries.take(0) =~= Seq::empty());
    } else {
        lemma_under_count(entries, name, value, (n - 1) as nat);
        assert(entries.take(n as int) =~= entries.take(n - 1).push(entries[n - 1]));
    }
}

proof fn lemma_named_count<W>(name: Seq<char>, values: Seq<W>, other: Seq<char>, value: W)
    ensures
        named(name, values).to_multiset().count((other, value)) == if other == name {
            values.to_multiset().count(value)
        } else {
            0
        },
    decreases values.len(),
{
    broadcast use vstd::seq_lib::group_to_multiset_ensures;

    if values.len() > 0 {
        lemma_named_count(name, values.drop_last(), other, value);
        assert(values =~= values.drop_last().push(values.last()));
        assert(named(name, values) =~= named(name, values.drop_last()).push(
            (name, values.last()),
        ));
    } else {
        assert(named(name, values) =~= Seq::empty());
    }
}

proof fn lemma_flat_count<W>(
    groups: Seq<(Seq<char>, Seq<W>)>,
    g: int,
    name: Seq<char>,
    value: W,
    n: nat,
)
    requires
        ascending_names(groups),
        n <= groups.len(),
        has_group(groups, name) ==> 0 <= g < groups.len() && groups[g].0 == name,
    ensures
        flat(groups, n).to_multiset().count((name, value)) == if has_group(groups, name) && g < n {
            groups[g].1.to_multiset().count(value)
        } else {
            0
        },
    decreases n,
{
    broadcast use vstd::seq_lib::group_to_multiset_ensures;

    if n > 0 {
        lemma_flat_count(groups, g, name, value, (n - 1) as nat);
        let last = groups[n - 1];
        lemma_named_count(last.0, last.1, name, value);
        vstd::seq_lib::lemma_multiset_commutative(
            flat(groups, (n - 1) as nat),
            named(last.0, last.1),
        );
        if last.0 == name {
            assert(has_group(groups, name));
            if g < n - 1 {
                names::law_names_are_ordered(groups[g].0, groups[n - 1].0);
            } else if g > n - 1 {
                names::law_names_are_ordered(groups[n - 1].0, groups[g].0);
            }
        }
    }
}

/// Grouping keeps every value under its name: nothing is lost and nothing is added.
pub proof fn law_grouping_keeps_everything<W>(
    entries: Seq<(Seq<char>, W)>,
    groups: Seq<(Seq<char>, Seq<W>)>,
)
    requires
        groups_of(entries, groups),
    ensures
        flat(groups, groups.len()).to_multiset() == entries.to_multiset(),
{
    broadcast use vstd::seq_lib::group_to_multiset_ensures;

    let all = flat(groups, groups.len()).to_multiset();
    assert(entries.take(entries.len() as int) =~= entries);
    assert forall|entry: (Seq<char>, W)| all.count(entry) == entries.to_multiset().count(entry) by {
        let (name, value) = entry;
        lemma_under_count(entries, name, value, entries.len());
        let g = choose|g: int| 0 <= g < groups.len() && (#[trigger] groups[g]).0 == name;
        lemma_flat_count(groups, g, name, value, groups.len());
        if has_group(groups, name) {
            assert(groups[g].1 == under(entries, groups[g].0, entries.len()));
        } else {
            if entries.to_multiset().count(entry) > 0 {
                assert(entries.contains(entry));
                let i = choose|i: int| 0 <= i < entries.len() && entries[i] == entry;
                assert(has_group(groups, entries[i].0));
            }
        }
    }
    assert(all =~= entries.to_multiset());
}

/// Whether entries stand together by name, the names ascending.
pub open spec fn names_ascend<W>(entries: Seq<(Seq<char>, W)>) -> bool {
    forall|i: int, j: int|
        0 <= i <= j < entries.len() ==> !names::before(
            (#[trigger] entries[j]).0,
            (#[trigger] entries[i]).0,
        )
}

/// Where the run of entries under a name ends that begins at `p`.
spec fn run_end<W>(entries: Seq<(Seq<char>, W)>, name: Seq<char>, p: int) -> int
    decreases entries.len() - p,
{
    if 0 <= p < entries.len() && entries[p].0 == name {
        run_end(entries, name, p + 1)
    } else {
        p
    }
}

proof fn lemma_run<W>(entries: Seq<(Seq<char>, W)>, name: Seq<char>, p: int)
    requires
        0 <= p <= entries.len(),
    ensures
        ({
            let q = run_end(entries, name, p);
            &&& p <= q <= entries.len()
            &&& forall|i: int| p <= i < q ==> (#[trigger] entries[i]).0 == name
            &&& q < entries.len() ==> entries[q].0 != name
        }),
    decreases entries.len() - p,
{
    if p < entries.len() && entries[p].0 == name {
        lemma_run(entries, name, p + 1);
    }
}

/// Where a name occurs in one run only, its values are those of the run.
proof fn lemma_under_run<W>(
    entries: Seq<(Seq<char>, W)>,
    name: Seq<char>,
    p: int,
    q: int,
    n: nat,
)
    requires
        0 <= p <= q <= entries.len(),
        n <= entries.len(),
        forall|i: int| 0 <= i < entries.len() ==> ((#[trigger] entries[i]).0 == name <==> p <= i < q),
    ensures
        ({
            let end: int = if n < q {
                n as int
            } else {
                q
            };
            named(name, under(entries, name, n)) == if n < p {
                Seq::empty()
            } else {
                entries.subrange(p, end)
            }
        }),
    decreases n,
{
    if n > 0 {
        lemma_under_run(entries, name, p, q, (n - 1) as nat);
        let earlier = under(entries, name, (n - 1) as nat);
        assert(entries[n - 1].0 == name <==> p <= n - 1 < q);
        if entries[n - 1].0 == name {
            let value = entries[n - 1].1;
            assert(entries[n - 1] == (name, value));
            assert(named(name, earlier.push(value)) =~= named(name, earlier).push((name, value)));
            assert(entries.subrange(p, n as int) =~= entries.subrange(p, n - 1).push(
                entries[n - 1],
            ));
        } else if n == p {
            assert(entries.subrange(p, p) =~= Seq::empty());
        }
    } else {
        assert(named(name, under(entries, name, 0)) =~= Seq::empty());
        if p == 0 {
            assert(entries.subrange(0, 0) =~= Seq::empty());
        }
    }
}

/// The first `g` groups hold the entries up to some place, behind which their names do not
/// occur.
proof fn lemma_flat_in_order<W>(
    entries: Seq<(Seq<char>, W)>,
    groups: Seq<(Seq<char>, Seq<W>)>,
    g: nat,
) -> (p: int)
    requires
        groups_of(entries, groups),
        names_ascend(entries),
        g <= groups.len(),
    ensures
        0 <= p <= entries.len(),
        flat(groups, g) == entries.take(p),
        forall|i: int, h: int|
            p <= i < entries.len() && 0 <= h < g ==> (#[trigger] entries[i]).0 != (
            #[trigger] groups[h]).0,
        forall|i: int, h: int|
            0 <= i < p && g <= h < groups.len() ==> (#[trigger] entries[i]).0 != (
            #[trigger] groups[h]).0,
    decreases g,
{
    if g == 0 {
        assert(entries.take(0) =~= Seq::empty());
        0
    } else {
        let p = lemma_flat_in_order(entries, groups, (g - 1) as nat);
        let name = groups[g - 1].0;
        let q = run_end(entries, name, p);
        lemma_run(entries, name, p);
        assert forall|i: int| q <= i < entries.len() implies (#[trigger] entries[i]).0 != name by {
            if entries[i].0 == name {
                let first = entries[q].0;
                assert(has_group(groups, first));
                let h = choose|h: int| 0 <= h < groups.len() && (#[trigger] groups[h]).0 == first;
                assert(h >= g);
                assert(names::before(name, groups[h].0));
                assert(!names::before(entries[i].0, entries[q].0));
            }
        }
        assert forall|i: int| 0 <= i < entries.len() implies ((#[trigger] entries[i]).0 == name
            <==> p <= i < q) by {
            if i < p {
                assert(entries[i].0 != groups[g - 1].0);
            }
        }
        lemma_under_run(entries, name, p, q, entries.len());
        assert(groups[g - 1].1 == under(entries, name, entries.len()));
        assert(entries.take(p) + entries.subrange(p, q) =~= entries.take(q));
        assert forall|i: int, h: int|
            q <= i < entries.len() && 0 <= h < g implies (#[trigger] entries[i]).0 != (
        #[trigger] groups[h]).0 by {
            if h == g - 1 {
                assert(entries[i].0 != name);
            }
        }
        assert forall|i: int, h: int|
            0 <= i < q && g <= h < groups.len() implies (#[trigger] entries[i]).0 != (
        #[trigger] groups[h]).0 by {
            if i >= p {
                assert(entries[i].0 == name);
                assert(names::before(groups[g - 1].0, groups[h].0));
                names::law_names_are_ordered(name, groups[h].0);
            }
        }
        q
    }
}

/// Grouping entries that stand together by name, the names ascending, and laying the groups
/// out again gives the very same list.
pub proof fn law_grouping_keeps_the_order<W>(
    entries: Seq<(Seq<char>, W)>,
    groups: Seq<(Seq<char>, Seq<W>)>,
)
    requires
        groups_of(entries, groups),
        names_ascend(entries),
    ensures
        flat(groups, groups.len()) == entries,
{
    let p = lemma_flat_in_order(entries, groups, groups.len());
    if p < entries.len() {
        assert(has_group(groups, entries[p].0));
        let h = choose|h: int| 0 <= h < groups.len() && (#[trigger] groups[h]).0 == entries[p].0;
        assert(entries[p].0 != groups[h].0);
    }
    assert(entries.take(p) =~= entries);
}

/// A group holds exactly the values that stand under its name, in their order.
pub proof fn law_a_group_holds_its_own_values<W>(
    entries: Seq<(Seq<char>, W)>,
    name: Seq<char>,
    n: nat,
)
    requires
        n <= entries.len(),
    ensures
        under(entries, name, n) == entries.take(n as int).filter(
            |e: (Seq<char>, W)| e.0 == name,
        ).map_values(|e: (Seq<char>, W)| e.1),
    decreases n,
{
    reveal(Seq::filter);
    let own = |e: (Seq<char>, W)| e.0 == name;
    let value = |e: (Seq<char>, W)| e.1;
    let now = entries.take(n as int);
    if n > 0 {
        law_a_group_holds_its_own_values(entries, name, (n - 1) as nat);
        let earlier = entries.take(n - 1);
        assert(now.drop_last() =~= earlier);
        assert(now.last() == entries[n - 1]);
        if own(entries[n - 1]) {
            assert(now.filter(own) == earlier.filter(own).push(entries[n - 1]));
            assert(now.filter(own).map_values(value) =~= earlier.filter(own).map_values(
                value,
            ).push(entries[n - 1].1));
        }
    }
    assert(under(entries, name, n) =~= now.filter(own).map_values(value));
}

} // verus!
