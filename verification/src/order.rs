//! The abstract values of the language and their structural order.
use vstd::prelude::*;

verus! {

/// The mathematical model of a value: either the empty value, or a map
/// given as its list of entries.
pub enum Val {
    Nil,
    Node(Seq<(Val, Val)>),
}

/// The outcome of comparing two values.
pub enum Order {
    Less,
    Equal,
    Greater,
}

impl Order {
    /// The opposite outcome.
    pub open spec fn flip(self) -> Order {
        match self {
            Order::Less => Order::Greater,
            Order::Equal => Order::Equal,
            Order::Greater => Order::Less,
        }
    }
}

/// The structural order: the empty value comes first, and maps compare
/// their entry lists key by key, then value by value, a shorter prefix first.
pub open spec fn ord(a: Val, b: Val) -> Order
    decreases a,
{
    match a {
        Val::Nil => match b {
            Val::Nil => Order::Equal,
            Val::Node(_) => Order::Less,
        },
        Val::Node(s1) => match b {
            Val::Nil => Order::Greater,
            Val::Node(s2) => ord_seq(s1, s2),
        },
    }
}

/// The order on entry lists.
pub open spec fn ord_seq(s1: Seq<(Val, Val)>, s2: Seq<(Val, Val)>) -> Order
    decreases s1,
{
    if s1.len() == 0 {
        if s2.len() == 0 { Order::Equal } else { Order::Less }
    } else if s2.len() == 0 {
        Order::Greater
    } else {
        match ord(s1[0].0, s2[0].0) {
            Order::Equal => match ord(s1[0].1, s2[0].1) {
                Order::Equal => ord_seq(s1.drop_first(), s2.drop_first()),
                c => c,
            },
            c => c,
        }
    }
}

/// Two values compare equal exactly when they are the same value.
pub proof fn lemma_ord_equal(a: Val, b: Val)
    ensures
        (ord(a, b) == Order::Equal) == (a == b),
    decreases a,
{
    match a {
        Val::Nil => {},
        Val::Node(s1) => match b {
            Val::Nil => {},
            Val::Node(s2) => {
                lemma_ord_seq_equal(s1, s2);
            },
        },
    }
}

/// Two entry lists compare equal exactly when they are the same list.
pub proof fn lemma_ord_seq_equal(s1: Seq<(Val, Val)>, s2: Seq<(Val, Val)>)
    ensures
        (ord_seq(s1, s2) == Order::Equal) == (s1 == s2),
    decreases s1,
{
    if s1.len() == 0 {
        if s2.len() == 0 {
            assert(s1 =~= s2);
        }
    } else if s2.len() == 0 {
    } else {
        lemma_ord_equal(s1[0].0, s2[0].0);
        lemma_ord_equal(s1[0].1, s2[0].1);
        lemma_ord_seq_equal(s1.drop_first(), s2.drop_first());
        if s1 == s2 {
            assert(s1.drop_first() == s2.drop_first());
        }
        if s1[0] == s2[0] && s1.drop_first() == s2.drop_first() {
            assert(s1 =~= s2) by {
                assert forall|i: int| 0 <= i < s1.len() implies s1[i] == s2[i] by {
                    if i > 0 {
                        assert(s1[i] == s1.drop_first()[i - 1]);
                        assert(s2[i] == s2.drop_first()[i - 1]);
                    }
                }
            }
        }
    }
}

/// Comparing the other way round gives the opposite answer.
pub proof fn lemma_ord_flip(a: Val, b: Val)
    ensures
        ord(b, a) == ord(a, b).flip(),
    decreases a,
{
    match a {
        Val::Nil => {},
        Val::Node(s1) => match b {
            Val::Nil => {},
            Val::Node(s2) => {
                lemma_ord_seq_flip(s1, s2);
            },
        },
    }
}

/// Comparing entry lists the other way round gives the opposite answer.
pub proof fn lemma_ord_seq_flip(s1: Seq<(Val, Val)>, s2: Seq<(Val, Val)>)
    ensures
        ord_seq(s2, s1) == ord_seq(s1, s2).flip(),
    decreases s1,
{
    if s1.len() == 0 || s2.len() == 0 {
    } else {
        lemma_ord_flip(s1[0].0, s2[0].0);
        lemma_ord_flip(s1[0].1, s2[0].1);
        lemma_ord_seq_flip(s1.drop_first(), s2.drop_first());
    }
}

/// The order is transitive.
pub proof fn lemma_ord_trans(a: Val, b: Val, c: Val)
    requires
        ord(a, b) == Order::Less,
        ord(b, c) == Order::Less,
    ensures
        ord(a, c) == Order::Less,
    decreases a,
{
    match a {
        Val::Nil => {},
        Val::Node(s1) => match b {
            Val::Nil => {},
            Val::Node(s2) => match c {
                Val::Nil => {},
                Val::Node(s3) => {
                    lemma_ord_seq_trans(s1, s2, s3);
                },
            },
        },
    }
}

/// The order on entry lists is transitive.
pub proof fn lemma_ord_seq_trans(s1: Seq<(Val, Val)>, s2: Seq<(Val, Val)>, s3: Seq<(Val, Val)>)
    requires
        ord_seq(s1, s2) == Order::Less,
        ord_seq(s2, s3) == Order::Less,
    ensures
        ord_seq(s1, s3) == Order::Less,
    decreases s1,
{
    if s1.len() == 0 || s2.len() == 0 || s3.len() == 0 {
    } else {
        let (k1, v1) = s1[0];
        let (k2, v2) = s2[0];
        let (k3, v3) = s3[0];
        lemma_ord_equal(k1, k2);
        lemma_ord_equal(k2, k3);
        lemma_ord_equal(v1, v2);
        lemma_ord_equal(v2, v3);
        if ord(k1, k2) == Order::Less && ord(k2, k3) == Order::Less {
            lemma_ord_trans(k1, k2, k3);
        } else if ord(k1, k2) == Order::Equal && ord(k2, k3) == Order::Equal {
            if ord(v1, v2) == Order::Less && ord(v2, v3) == Order::Less {
                lemma_ord_trans(v1, v2, v3);
            } else if ord(v1, v2) == Order::Equal && ord(v2, v3) == Order::Equal {
                lemma_ord_seq_trans(s1.drop_first(), s2.drop_first(), s3.drop_first());
            }
        }
    }
}


/// Whether the keys of an entry list are strictly increasing, so each key occurs
/// once: the well-formedness every map operation keeps.
pub open spec fn sorted(s: Seq<(Val, Val)>) -> bool {
    forall|i: int, j: int| 0 <= i < j < s.len() ==> ord(#[trigger] s[i].0, #[trigger] s[j].0) == Order::Less
}

/// Whether every map inside a value keeps its keys strictly increasing.
pub open spec fn wf(a: Val) -> bool
    decreases a,
{
    match a {
        Val::Nil => true,
        Val::Node(s) => sorted(s) && forall|i: int| 0 <= i < s.len() ==> {
            &&& wf(#[trigger] s[i].0)
            &&& wf(s[i].1)
        },
    }
}

/// The value stored under key `k`: the first entry whose key is `k`.
pub open spec fn lookup(s: Seq<(Val, Val)>, k: Val) -> Option<Val>
    decreases s.len(),
{
    if s.len() == 0 {
        None
    } else if s[0].0 == k {
        Some(s[0].1)
    } else {
        lookup(s.drop_first(), k)
    }
}

/// The entry list after storing `v` under `k`: the entry is replaced in
/// place, or inserted before the first greater key.
pub open spec fn set_entry(s: Seq<(Val, Val)>, k: Val, v: Val) -> Seq<(Val, Val)>
    decreases s.len(),
{
    if s.len() == 0 {
        seq![(k, v)]
    } else {
        match ord(s[0].0, k) {
            Order::Equal => s.update(0, (k, v)),
            Order::Greater => seq![(k, v)] + s,
            Order::Less => seq![s[0]] + set_entry(s.drop_first(), k, v),
        }
    }
}

/// The position of the first entry whose key is `k`.
pub open spec fn find(s: Seq<(Val, Val)>, k: Val) -> Option<int>
    decreases s.len(),
{
    if s.len() == 0 {
        None
    } else if s[0].0 == k {
        Some(0)
    } else {
        match find(s.drop_first(), k) {
            Some(i) => Some(i + 1),
            None => None,
        }
    }
}

/// The entry list after removing the first entry for `k`, if any.
pub open spec fn remove_entry(s: Seq<(Val, Val)>, k: Val) -> Seq<(Val, Val)> {
    match find(s, k) {
        Some(i) => s.remove(i),
        None => s,
    }
}

/// The entries built by storing each pair in turn into an empty map.
pub open spec fn collect_entries(p: Seq<(Val, Val)>) -> Seq<(Val, Val)>
    decreases p.len(),
{
    if p.len() == 0 {
        Seq::empty()
    } else {
        set_entry(collect_entries(p.drop_last()), p.last().0, p.last().1)
    }
}

/// The first position of a key, and what reading the key gives.
pub proof fn lemma_find(s: Seq<(Val, Val)>, k: Val)
    ensures
        match find(s, k) {
            Some(i) => {
                &&& 0 <= i < s.len()
                &&& s[i].0 == k
                &&& forall|j: int| 0 <= j < i ==> s[j].0 != k
                &&& lookup(s, k) == Some(s[i].1)
            },
            None => {
                &&& forall|j: int| 0 <= j < s.len() ==> s[j].0 != k
                &&& lookup(s, k) is None
            },
        },
    decreases s.len(),
{
    if s.len() > 0 && s[0].0 != k {
        let r = s.drop_first();
        lemma_find(r, k);
        match find(r, k) {
            Some(i) => {
                assert(s[i + 1] == r[i]);
                assert forall|j: int| 0 <= j < i + 1 implies s[j].0 != k by {
                    if j > 0 {
                        assert(s[j] == r[j - 1]);
                    }
                }
            },
            None => {
                assert forall|j: int| 0 <= j < s.len() implies s[j].0 != k by {
                    if j > 0 {
                        assert(s[j] == r[j - 1]);
                    }
                }
            },
        }
    }
}

/// The rest of a sorted list is sorted, and its first key is below all the others.
pub proof fn lemma_sorted_tail(s: Seq<(Val, Val)>)
    requires
        sorted(s),
        s.len() > 0,
    ensures
        sorted(s.drop_first()),
        forall|i: int| 1 <= i < s.len() ==> ord(s[0].0, #[trigger] s[i].0) == Order::Less,
{
    assert forall|i: int, j: int| 0 <= i < j < s.drop_first().len() implies ord(
        #[trigger] s.drop_first()[i].0,
        #[trigger] s.drop_first()[j].0,
    ) == Order::Less by {
        assert(s.drop_first()[i] == s[i + 1]);
        assert(s.drop_first()[j] == s[j + 1]);
    }
}

/// An entry below every key of a sorted list extends it sorted.
pub proof fn lemma_sorted_cons(e: (Val, Val), s: Seq<(Val, Val)>)
    requires
        sorted(s),
        forall|i: int| 0 <= i < s.len() ==> ord(e.0, #[trigger] s[i].0) == Order::Less,
    ensures
        sorted(seq![e] + s),
{
    let t = seq![e] + s;
    assert forall|i: int, j: int| 0 <= i < j < t.len() implies ord(#[trigger] t[i].0, #[trigger] t[j].0) == Order::Less by {
        assert(t[j] == s[j - 1]);
        if i > 0 {
            assert(t[i] == s[i - 1]);
        }
    }
}

/// Every key of `set_entry(s, k, v)` is above a bound that is below `k` and below every key of `s`.
pub proof fn lemma_set_entry_bound(s: Seq<(Val, Val)>, k: Val, v: Val, b: Val)
    requires
        ord(b, k) == Order::Less,
        forall|i: int| 0 <= i < s.len() ==> ord(b, #[trigger] s[i].0) == Order::Less,
    ensures
        forall|i: int| 0 <= i < set_entry(s, k, v).len() ==> ord(b, #[trigger] set_entry(s, k, v)[i].0) == Order::Less,
    decreases s.len(),
{
    let t = set_entry(s, k, v);
    if s.len() == 0 {
    } else {
        match ord(s[0].0, k) {
            Order::Equal => {
                assert forall|i: int| 0 <= i < t.len() implies ord(b, #[trigger] t[i].0) == Order::Less by {
                    if i > 0 {
                        assert(t[i] == s[i]);
                    }
                }
            },
            Order::Greater => {
                assert forall|i: int| 0 <= i < t.len() implies ord(b, #[trigger] t[i].0) == Order::Less by {
                    if i > 0 {
                        assert(t[i] == s[i - 1]);
                    }
                }
            },
            Order::Less => {
                let r = s.drop_first();
                assert forall|i: int| 0 <= i < r.len() implies ord(b, #[trigger] r[i].0) == Order::Less by {
                    assert(r[i] == s[i + 1]);
                }
                lemma_set_entry_bound(r, k, v, b);
                assert forall|i: int| 0 <= i < t.len() implies ord(b, #[trigger] t[i].0) == Order::Less by {
                    if i > 0 {
                        assert(t[i] == set_entry(r, k, v)[i - 1]);
                    }
                }
            },
        }
    }
}

/// Storing an entry keeps an entry list sorted.
pub proof fn lemma_set_entry_sorted(s: Seq<(Val, Val)>, k: Val, v: Val)
    requires
        sorted(s),
    ensures
        sorted(set_entry(s, k, v)),
    decreases s.len(),
{
    let t = set_entry(s, k, v);
    if s.len() == 0 {
    } else {
        lemma_sorted_tail(s);
        lemma_ord_equal(s[0].0, k);
        lemma_ord_flip(s[0].0, k);
        match ord(s[0].0, k) {
            Order::Equal => {
                assert forall|i: int, j: int| 0 <= i < j < t.len() implies ord(#[trigger] t[i].0, #[trigger] t[j].0) == Order::Less by {
                    assert(t[j] == s[j]);
                    if i > 0 {
                        assert(t[i] == s[i]);
                    }
                }
            },
            Order::Greater => {
                assert forall|i: int| 0 <= i < s.len() implies ord(k, #[trigger] s[i].0) == Order::Less by {
                    if i > 0 {
                        lemma_ord_trans(k, s[0].0, s[i].0);
                    }
                }
                lemma_sorted_cons((k, v), s);
            },
            Order::Less => {
                let r = s.drop_first();
                lemma_set_entry_sorted(r, k, v);
                assert forall|i: int| 0 <= i < r.len() implies ord(s[0].0, #[trigger] r[i].0) == Order::Less by {
                    assert(r[i] == s[i + 1]);
                }
                lemma_set_entry_bound(r, k, v, s[0].0);
                lemma_sorted_cons(s[0], set_entry(r, k, v));
            },
        }
    }
}

/// A key below every key of a sorted list is not in it.
pub proof fn lemma_lookup_below(s: Seq<(Val, Val)>, k: Val)
    requires
        forall|i: int| 0 <= i < s.len() ==> ord(k, #[trigger] s[i].0) == Order::Less,
    ensures
        lookup(s, k) is None,
    decreases s.len(),
{
    if s.len() > 0 {
        lemma_ord_equal(k, s[0].0);
        let r = s.drop_first();
        assert forall|i: int| 0 <= i < r.len() implies ord(k, #[trigger] r[i].0) == Order::Less by {
            assert(r[i] == s[i + 1]);
        }
        lemma_lookup_below(r, k);
    }
}

/// Reading after storing: the stored key gives the stored value, other keys are unchanged.
pub proof fn lemma_set_entry_lookup(s: Seq<(Val, Val)>, k: Val, v: Val, q: Val)
    requires
        sorted(s),
    ensures
        lookup(set_entry(s, k, v), q) == if q == k { Some(v) } else { lookup(s, q) },
    decreases s.len(),
{
    let t = set_entry(s, k, v);
    if s.len() == 0 {
        assert(t.drop_first().len() == 0);
        assert(lookup(t.drop_first(), q) is None);
        assert(lookup(s, q) is None);
    } else {
        lemma_sorted_tail(s);
        lemma_ord_equal(s[0].0, k);
        match ord(s[0].0, k) {
            Order::Equal => {
                assert(t.drop_first() =~= s.drop_first());
                assert(t[0] == (k, v));
                if q == k {
                } else {
                    assert(lookup(t, q) == lookup(t.drop_first(), q));
                    assert(lookup(s, q) == lookup(s.drop_first(), q));
                }
            },
            Order::Greater => {
                assert(t.drop_first() =~= s);
                assert(t[0] == (k, v));
            },
            Order::Less => {
                let r = s.drop_first();
                assert(t.drop_first() =~= set_entry(r, k, v));
                lemma_set_entry_lookup(r, k, v, q);
            },
        }
    }
}

/// In a sorted list, a key occurs at most once.
pub proof fn lemma_sorted_unique(s: Seq<(Val, Val)>, i: int, j: int)
    requires
        sorted(s),
        0 <= i < s.len(),
        0 <= j < s.len(),
        s[i].0 == s[j].0,
    ensures
        i == j,
{
    lemma_ord_equal(s[i].0, s[j].0);
    if i < j {
        assert(ord(s[i].0, s[j].0) == Order::Less);
    } else if j < i {
        assert(ord(s[j].0, s[i].0) == Order::Less);
    }
}

/// Removing keeps an entry list sorted.
pub proof fn lemma_remove_entry_sorted(s: Seq<(Val, Val)>, k: Val)
    requires
        sorted(s),
    ensures
        sorted(remove_entry(s, k)),
{
    lemma_find(s, k);
    match find(s, k) {
        Some(i) => {
            let t = s.remove(i);
            assert forall|a: int, b: int| 0 <= a < b < t.len() implies ord(#[trigger] t[a].0, #[trigger] t[b].0) == Order::Less by {
                let a1 = if a < i { a } else { a + 1 };
                let b1 = if b < i { b } else { b + 1 };
                assert(t[a] == s[a1]);
                assert(t[b] == s[b1]);
            }
        },
        None => {},
    }
}

/// Reading after removing: the removed key is gone, other keys are unchanged.
pub proof fn lemma_remove_entry_lookup(s: Seq<(Val, Val)>, k: Val, q: Val)
    requires
        sorted(s),
    ensures
        lookup(remove_entry(s, k), q) == if q == k { None } else { lookup(s, q) },
{
    lemma_find(s, k);
    lemma_find(s, q);
    match find(s, k) {
        Some(i) => {
            let t = s.remove(i);
            lemma_find(t, q);
            if q == k {
                match find(t, q) {
                    Some(j) => {
                        let j1 = if j < i { j } else { j + 1 };
                        assert(t[j] == s[j1]);
                        lemma_sorted_unique(s, i, j1);
                    },
                    None => {},
                }
            } else {
                match find(s, q) {
                    Some(j) => {
                        let j0 = if j < i { j } else { j - 1 };
                        assert(t[j0] == s[j]);
                        match find(t, q) {
                            Some(m) => {
                                let m1 = if m < i { m } else { m + 1 };
                                assert(t[m] == s[m1]);
                                lemma_sorted_unique(s, j, m1);
                            },
                            None => {},
                        }
                    },
                    None => {
                        match find(t, q) {
                            Some(m) => {
                                let m1 = if m < i { m } else { m + 1 };
                                assert(t[m] == s[m1]);
                            },
                            None => {},
                        }
                    },
                }
            }
        },
        None => {},
    }
}

/// Building from pairs gives a sorted list.
pub proof fn lemma_collect_sorted(p: Seq<(Val, Val)>)
    ensures
        sorted(collect_entries(p)),
    decreases p.len(),
{
    if p.len() > 0 {
        lemma_collect_sorted(p.drop_last());
        lemma_set_entry_sorted(collect_entries(p.drop_last()), p.last().0, p.last().1);
    }
}

/// The stored key gives the stored value, whether or not the list is sorted.
pub proof fn lemma_set_entry_get(s: Seq<(Val, Val)>, k: Val, v: Val)
    ensures
        lookup(set_entry(s, k, v), k) == Some(v),
    decreases s.len(),
{
    if s.len() > 0 {
        lemma_ord_equal(s[0].0, k);
        let t = set_entry(s, k, v);
        match ord(s[0].0, k) {
            Order::Less => {
                assert(t.drop_first() =~= set_entry(s.drop_first(), k, v));
                lemma_set_entry_get(s.drop_first(), k, v);
            },
            _ => {},
        }
    }
}

/// The entries built by storing each pair with a non-empty value in turn into an empty map.
pub open spec fn collect_nonempty(p: Seq<(Val, Val)>) -> Seq<(Val, Val)>
    decreases p.len(),
{
    if p.len() == 0 {
        Seq::empty()
    } else if p.last().1 == Val::Nil {
        collect_nonempty(p.drop_last())
    } else {
        set_entry(collect_nonempty(p.drop_last()), p.last().0, p.last().1)
    }
}

/// The elements of `s` whose flag in `keep` is set, in order.
pub open spec fn keep_by<A>(s: Seq<A>, keep: Seq<bool>) -> Seq<A>
    decreases s.len(),
{
    if s.len() == 0 {
        Seq::empty()
    } else if keep[s.len() - 1] {
        keep_by(s.drop_last(), keep).push(s.last())
    } else {
        keep_by(s.drop_last(), keep)
    }
}

/// Keeping by flags depends only on the flags at the list's positions.
pub proof fn lemma_keep_by_prefix<A>(s: Seq<A>, keep: Seq<bool>, more: Seq<bool>)
    requires
        keep.len() >= s.len(),
        more.len() >= s.len(),
        forall|j: int| 0 <= j < s.len() ==> keep[j] == more[j],
    ensures
        keep_by(s, keep) == keep_by(s, more),
    decreases s.len(),
{
    if s.len() > 0 {
        lemma_keep_by_prefix(s.drop_last(), keep, more);
    }
}

} // verus!
