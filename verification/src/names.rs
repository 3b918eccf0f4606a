//! Comparing names: equality, and the order of their UTF-8 bytes, which is how Rust
//! orders strings.
use vstd::prelude::*;

verus! {

/// Whether `a` comes before `b` in the lexicographic order, the first `i` bytes being
/// the same.
pub open spec fn lex_before(a: Seq<u8>, b: Seq<u8>, i: int) -> bool
    decreases b.len() - i,
{
    if i >= b.len() {
        false
    } else if i >= a.len() {
        true
    } else if a[i] != b[i] {
        a[i] < b[i]
    } else {
        lex_before(a, b, i + 1)
    }
}

/// The bytes of a name.
pub open spec fn utf8(name: Seq<char>) -> Seq<u8> {
    vstd::utf8::encode_utf8(name)
}

/// Whether name `a` comes before name `b`.
pub open spec fn before(a: Seq<char>, b: Seq<char>) -> bool {
    lex_before(utf8(a), utf8(b), 0)
}

/// The bytes tell names apart.
pub proof fn lemma_utf8_injective(a: Seq<char>, b: Seq<char>)
    ensures
        utf8(a) == utf8(b) <==> a == b,
{
    vstd::utf8::encode_utf8_decode_utf8(a);
    vstd::utf8::encode_utf8_decode_utf8(b);
}

proof fn lemma_lex_trichotomy(a: Seq<u8>, b: Seq<u8>, i: int)
    requires
        0 <= i <= a.len(),
        i <= b.len(),
        forall|k: int| 0 <= k < i ==> a[k] == b[k],
    ensures
        !(lex_before(a, b, i) && lex_before(b, a, i)),
        lex_before(a, b, i) || lex_before(b, a, i) || a == b,
        a == b ==> !lex_before(a, b, i),
    decreases b.len() - i,
{
    if i < a.len() && i < b.len() && a[i] == b[i] {
        lemma_lex_trichotomy(a, b, i + 1);
    } else if i == a.len() && i == b.len() {
        assert(a =~= b);
    }
}

proof fn lemma_lex_transitive(a: Seq<u8>, b: Seq<u8>, c: Seq<u8>, i: int)
    requires
        0 <= i,
        lex_before(a, b, i),
        lex_before(b, c, i),
    ensures
        lex_before(a, c, i),
    decreases c.len() - i,
{
    if i < a.len() && i < b.len() && i < c.len() && a[i] == b[i] && b[i] == c[i] {
        lemma_lex_transitive(a, b, c, i + 1);
    }
}

/// Of two names, one comes before the other or they are the same, and only one of
/// these holds.
pub proof fn law_names_are_ordered(a: Seq<char>, b: Seq<char>)
    ensures
        a != b <==> before(a, b) || before(b, a),
        !(before(a, b) && before(b, a)),
{
    lemma_lex_trichotomy(utf8(a), utf8(b), 0);
    lemma_utf8_injective(a, b);
}

/// The order of names is transitive.
pub proof fn law_order_is_transitive(a: Seq<char>, b: Seq<char>, c: Seq<char>)
    requires
        before(a, b),
        before(b, c),
    ensures
        before(a, c),
{
    lemma_lex_transitive(utf8(a), utf8(b), utf8(c), 0);
}

/// Whether `a` comes before `b`.
pub fn is_before(a: &str, b: &str) -> (yes: bool)
    ensures
        yes == before(a@, b@),
{
    let x = a.as_bytes();
    let y = b.as_bytes();
    let mut i: usize = 0;
    while i < x.len() && i < y.len()
        invariant
            x@ == utf8(a@),
            y@ == utf8(b@),
            i <= x@.len(),
            i <= y@.len(),
            before(a@, b@) == lex_before(x@, y@, i as int),
        decreases x@.len() - i,
    {
        if x[i] != y[i] {
            return x[i] < y[i];
        }
        i = i + 1;
    }
    i < y.len()
}

/// Whether two names are the same.
pub fn same(a: &str, b: &str) -> (yes: bool)
    ensures
        yes == (a@ == b@),
{
    let x = a.as_bytes();
    let y = b.as_bytes();
    proof {
        lemma_utf8_injective(a@, b@);
    }
    if x.len() != y.len() {
        return false;
    }
    let mut i: usize = 0;
    while i < x.len()
        invariant
            x@ == utf8(a@),
            y@ == utf8(b@),
            utf8(a@) == utf8(b@) <==> a@ == b@,
            x@.len() == y@.len(),
            i <= x@.len(),
            forall|k: int| 0 <= k < i ==> x@[k] == y@[k],
        decreases x@.len() - i,
    {
        if x[i] != y[i] {
            return false;
        }
        i = i + 1;
    }
    assert(x@ =~= y@);
    true
}

/// The names that a list of strings holds.
pub open spec fn names_of(list: Seq<String>) -> Seq<Seq<char>> {
    list.map_values(|s: String| s@)
}

/// Whether a list holds a name.
pub fn has(list: &[String], name: &str) -> (yes: bool)
    ensures
        yes == names_of(list@).contains(name@),
{
    let ghost all = names_of(list@);
    let mut i: usize = 0;
    while i < list.len()
        invariant
            i <= list@.len(),
            all == names_of(list@),
            forall|k: int| 0 <= k < i ==> all[k] != name@,
        decreases list@.len() - i,
    {
        assert(all[i as int] == list@[i as int]@);
        if same(list[i].as_str(), name) {
            return true;
        }
        i = i + 1;
    }
    false
}

/// Whether a list has exactly these names, in order, each once.
pub open spec fn lists(list: Seq<Seq<char>>, names: Set<Seq<char>>) -> bool {
    &&& forall|i: int, j: int|
        0 <= i < j < list.len() ==> before(#[trigger] list[i], #[trigger] list[j])
    &&& list.to_set() == names
}

/// Puts names in order, each once.
pub fn distinct(names: &Vec<String>) -> (list: Vec<String>)
    ensures
        lists(names_of(list@), names_of(names@).to_set()),
{
    let ghost all = names_of(names@);
    let mut list: Vec<String> = Vec::new();
    assert(names_of(list@).to_set() =~= all.take(0).to_set());
    let mut i: usize = 0;
    while i < names.len()
        invariant
            i <= names@.len(),
            all == names_of(names@),
            lists(names_of(list@), all.take(i as int).to_set()),
        decreases names@.len() - i,
    {
        let name = names[i].as_str();
        let ghost now = names_of(list@);
        let ghost new = all[i as int];
        assert(new == name@);
        let mut at: usize = 0;
        while at < list.len() && is_before(list[at].as_str(), name)
            invariant
                at <= list@.len(),
                now == names_of(list@),
                new == name@,
                forall|k: int| 0 <= k < at ==> before(#[trigger] now[k], new),
            decreases list@.len() - at,
        {
            assert(now[at as int] == list@[at as int]@);
            at = at + 1;
        }
        assert(at < list@.len() ==> now[at as int] == list@[at as int]@);
        let known = at < list.len() && same(list[at].as_str(), name);
        if !known {
            list.insert(at, names[i].clone());
            assert(names_of(list@) =~= now.insert(at as int, new));
        }
        proof {
            assert(all.take(i + 1) =~= all.take(i as int).push(new));
            lemma_joins(now, all.take(i as int), at as int, new, known);
        }
        i = i + 1;
    }
    assert(all.take(all.len() as int) =~= all);
    list
}

proof fn lemma_joins(
    now: Seq<Seq<char>>,
    seen: Seq<Seq<char>>,
    at: int,
    new: Seq<char>,
    known: bool,
)
    requires
        lists(now, seen.to_set()),
        0 <= at <= now.len(),
        forall|k: int| 0 <= k < at ==> before(#[trigger] now[k], new),
        at < now.len() ==> !before(now[at], new),
        known == (at < now.len() && now[at] == new),
    ensures
        known ==> lists(now, seen.push(new).to_set()),
        !known ==> lists(now.insert(at, new), seen.push(new).to_set()),
{
    let list = if known {
        now
    } else {
        now.insert(at, new)
    };
    if at < now.len() {
        law_names_are_ordered(now[at], new);
    }
    assert forall|i: int, j: int| 0 <= i < j < list.len() implies before(
        #[trigger] list[i],
        #[trigger] list[j],
    ) by {
        if !known {
            let x = if i < at {
                i
            } else {
                i - 1
            };
            let y = if j < at {
                j
            } else {
                j - 1
            };
            if i == at {
                assert(list[j] == now[y]);
                if y > at {
                    law_order_is_transitive(new, now[at], now[y]);
                }
            } else if j == at {
                assert(list[i] == now[x]);
            } else {
                assert(list[i] == now[x] && list[j] == now[y]);
            }
        }
    }
    assert(list.to_set() =~= seen.push(new).to_set()) by {
        assert forall|name: Seq<char>| list.contains(name) == seen.push(new).contains(name) by {
            assert(now.to_set().contains(name) == seen.to_set().contains(name));
            if seen.contains(name) {
                let k = choose|k: int| 0 <= k < seen.len() && seen[k] == name;
                assert(seen.push(new)[k] == name);
            }
            assert(seen.push(new)[seen.len() as int] == new);
            if now.contains(name) {
                let k = choose|k: int| 0 <= k < now.len() && now[k] == name;
                assert(list[if known || k < at {
                    k
                } else {
                    k + 1
                }] == name);
            }
            assert(list[at] == new);
            if list.contains(name) && name != new {
                let k = choose|k: int| 0 <= k < list.len() && list[k] == name;
                assert(now[if known || k < at {
                    k
                } else {
                    k - 1
                }] == name);
            }
        }
    }
}

/// The first byte in which two names differ decides which comes first, the smaller one
/// first; and a name comes before every longer one that starts with it.
pub proof fn law_the_first_difference_decides(a: Seq<char>, b: Seq<char>, k: int)
    requires
        0 <= k <= utf8(a).len(),
        0 <= k <= utf8(b).len(),
        forall|i: int| 0 <= i < k ==> utf8(a)[i] == #[trigger] utf8(b)[i],
    ensures
        k < utf8(a).len() && k < utf8(b).len() && utf8(a)[k] < utf8(b)[k] ==> before(a, b),
        k == utf8(a).len() && k < utf8(b).len() ==> before(a, b),
        k == utf8(b).len() ==> !before(a, b),
{
    lemma_shared_start(utf8(a), utf8(b), 0, k);
}

proof fn lemma_shared_start(a: Seq<u8>, b: Seq<u8>, i: int, k: int)
    requires
        0 <= i <= k <= a.len(),
        k <= b.len(),
        forall|j: int| 0 <= j < k ==> a[j] == #[trigger] b[j],
    ensures
        lex_before(a, b, i) == lex_before(a, b, k),
    decreases k - i,
{
    if i < k {
        assert(a[i] == b[i]);
        lemma_shared_start(a, b, i + 1, k);
    }
}

} // verus!
