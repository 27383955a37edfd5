//! The operations of maps.
use vstd::prelude::*;
use crate::order::{
    Val, Order, ord, sorted, lookup, find, set_entry, remove_entry, collect_entries, lemma_find,
    lemma_ord_equal, keep_by, collect_nonempty, lemma_set_entry_sorted, lemma_remove_entry_sorted,
    lemma_collect_sorted,
};
use crate::value::{V, L, compare, equals, entries_of};
use crate::encode::atomic_val;

verus! {

impl L {
    /// The empty map.
    pub fn new() -> (r: L)
        ensures
            r@ == Seq::<(Val, Val)>::empty(),
            sorted(r@),
    {
        let r = L(Vec::new());
        proof {
            assert(r@ =~= Seq::<(Val, Val)>::empty());
        }
        r
    }

    /// The position of the first entry whose key is `key`.
    fn position(&self, key: &V) -> (r: Option<usize>)
        ensures
            match r {
                Some(i) => find(self@, key@) == Some(i as int),
                None => find(self@, key@) is None,
            },
    {
        proof {
            lemma_find(self@, key@);
        }
        let n = self.0.len();
        let mut i: usize = 0;
        while i < n
            invariant
                n == self.0@.len(),
                i <= n,
                forall|j: int| 0 <= j < i ==> self@[j].0 != key@,
            decreases n - i,
        {
            if equals(&self.0[i].0, key) {
                proof {
                    lemma_find(self@, key@);
                    assert(self@[i as int].0 == key@);
                    if let Some(m) = find(self@, key@) {
                        if m != i {
                            assert(self@[m].0 == key@);
                        }
                    }
                }
                return Some(i);
            }
            i = i + 1;
        }
        None
    }

    /// The value stored under `key`.
    pub fn get(&self, key: &V) -> (r: Option<&V>)
        ensures
            match r {
                Some(x) => lookup(self@, key@) == Some(x@),
                None => lookup(self@, key@) is None,
            },
    {
        proof {
            lemma_find(self@, key@);
        }
        match self.position(key) {
            Some(i) => Some(&self.0[i].1),
            None => None,
        }
    }

    /// Stores `val` under `key`, keeping the entries in key order.
    fn set(&mut self, key: V, val: V)
        ensures
            final(self)@ == set_entry(old(self)@, key@, val@),
    {
        let ghost s = self@;
        let ghost k = key@;
        let ghost v = val@;
        let n = self.0.len();
        let mut i: usize = 0;
        proof {
            assert(s.skip(0) =~= s);
            assert(s.take(0) + s.skip(0) =~= s);
        }
        while i < n
            invariant
                n == self.0@.len(),
                i <= n,
                self@ == s,
                old(self)@ == s,
                k == key@,
                v == val@,
                set_entry(s, k, v) == s.take(i as int) + set_entry(s.skip(i as int), k, v),
            decreases n - i,
        {
            let c = compare(&self.0[i].0, &key);
            let ghost t = s.skip(i as int);
            proof {
                assert(t[0] == s[i as int]);
                assert(s[i as int].0 == self.0@[i as int].0@);
                assert(ord(t[0].0, k) == c);
                assert(t.drop_first() =~= s.skip(i + 1));
            }
            match c {
                Order::Equal => {
                    assert(set_entry(t, k, v) == t.update(0, (k, v)));
                    self.0.set(i, (key, val));
                    proof {
                        assert(self@ =~= s.take(i as int) + s.skip(i as int).update(0, (k, v)));
                    }
                    return;
                },
                Order::Greater => {
                    assert(set_entry(t, k, v) == seq![(k, v)] + t);
                    self.0.insert(i, (key, val));
                    proof {
                        assert(self@ =~= s.take(i as int) + (seq![(k, v)] + s.skip(i as int)));
                    }
                    return;
                },
                Order::Less => {
                    assert(set_entry(t, k, v) == seq![t[0]] + set_entry(t.drop_first(), k, v));
                    proof {
                        assert(s.take(i + 1) =~= s.take(i as int) + seq![s[i as int]]);
                    }
                },
            }
            i = i + 1;
        }
        self.0.push((key, val));
        proof {
            assert(s.skip(n as int).len() == 0);
            assert(s.take(n as int) =~= s);
            assert(self@ =~= s + seq![(k, v)]);
        }
    }

    /// Stores `val` under `key`; storing the empty value changes nothing. Entries in
    /// key order stay in key order.
    pub fn insert(&mut self, key: V, val: V)
        ensures
            final(self)@ == if val.0 is Some { set_entry(old(self)@, key@, val@) } else { old(self)@ },
            sorted(old(self)@) ==> sorted(final(self)@),
    {
        proof {
            if sorted(self@) {
                lemma_set_entry_sorted(self@, key@, val@);
            }
        }
        if val.0.is_some() {
            self.set(key, val);
        }
    }

    /// Mutable access to the value stored under `key`.
    pub fn get_mut(&mut self, key: &V) -> (r: Option<&mut V>)
        ensures
            match r {
                Some(x) => {
                    &&& find(old(self)@, key@) is Some
                    &&& *x == old(self).0@[find(old(self)@, key@)->0].1
                    &&& final(self).0@ == old(self).0@.update(
                        find(old(self)@, key@)->0,
                        (old(self).0@[find(old(self)@, key@)->0].0, *final(x)),
                    )
                },
                None => find(old(self)@, key@) is None && *final(self) == *old(self),
            },
            sorted(old(self)@) ==> sorted(final(self)@),
    {
        proof {
            lemma_find(self@, key@);
        }
        match self.position(key) {
            Some(i) => {
                proof {
                    lemma_update_value_sorted(self.0@, i as int);
                }
                Some(&mut self.0[i].1)
            },
            None => None,
        }
    }

    /// The number of entries.
    pub fn len(&self) -> (r: usize)
        ensures
            r == self@.len(),
    {
        self.0.len()
    }

    /// The slot for `key`, holding `default` first where `key` is absent.
    pub fn entry(&mut self, key: V, default: V) -> (r: &mut V)
        ensures
            ({
                let s = if lookup(old(self)@, key@) is Some { old(self)@ } else { set_entry(old(self)@, key@, default@) };
                let i = find(s, key@)->0;
                &&& find(s, key@) is Some
                &&& lookup(s, key@) == Some((*r)@)
                &&& final(self)@ == s.update(i, (key@, (*final(r))@))
                &&& sorted(old(self)@) ==> sorted(s)
            }),
    {
        proof {
            lemma_find(self@, key@);
            if sorted(self@) {
                lemma_set_entry_sorted(self@, key@, default@);
            }
        }
        if self.position(&key).is_none() {
            let ghost k = key@;
            self.set(key.clone(), default);
            proof {
                crate::order::lemma_set_entry_get(old(self)@, k, default@);
            }
        }
        proof {
            lemma_find(self@, key@);
        }
        let ghost s = self@;
        match self.position(&key) {
            Some(i) => {
                let r = &mut self.0[i].1;
                r
            },
            None => {
                &mut self.0[0].1
            },
        }
    }

    /// Removes the entry for `key`, giving back its value.
    pub fn remove(&mut self, key: &V) -> (r: Option<V>)
        ensures
            final(self)@ == remove_entry(old(self)@, key@),
            sorted(old(self)@) ==> sorted(final(self)@),
            match r {
                Some(x) => lookup(old(self)@, key@) == Some(x@),
                None => lookup(old(self)@, key@) is None,
            },
    {
        proof {
            lemma_find(self@, key@);
            if sorted(self@) {
                lemma_remove_entry_sorted(self@, key@);
            }
        }
        let ghost s = self@;
        match self.position(key) {
            Some(i) => {
                let (_, v) = self.0.remove(i);
                proof {
                    assert(self@ =~= s.remove(i as int));
                }
                Some(v)
            },
            None => None,
        }
    }

    /// Whether the map has no entries.
    pub fn is_empty(&self) -> (r: bool)
        ensures
            r == (self@.len() == 0),
    {
        self.0.len() == 0
    }

    /// Whether some entry has key `key`.
    pub fn contains_key(&self, key: &V) -> (r: bool)
        ensures
            r == lookup(self@, key@) is Some,
    {
        proof {
            lemma_find(self@, key@);
        }
        self.position(key).is_some()
    }

    /// The keys, in order: strictly increasing for a map in key order.
    pub fn keys(&self) -> (r: Vec<&V>)
        ensures
            r@.len() == self@.len(),
            forall|i: int| 0 <= i < r@.len() ==> (*r@[i])@ == #[trigger] self@[i].0,
            sorted(self@) ==> forall|i: int, j: int|
                0 <= i < j < r@.len() ==> ord((#[trigger] *r@[i])@, (#[trigger] *r@[j])@) == Order::Less,
    {
        let n = self.0.len();
        let mut out: Vec<&V> = Vec::new();

        let mut i: usize = 0;
        while i < n
            invariant
                n == self.0@.len(),
                i <= n,
                out@.len() == i,
                forall|j: int| 0 <= j < i ==> (*out@[j])@ == #[trigger] self@[j].0,
            decreases n - i,
        {
            out.push(&self.0[i].0);
            i = i + 1;
        }
        proof {
            if sorted(self@) {
                assert forall|a: int, b: int| 0 <= a < b < out@.len() implies ord((#[trigger] *out@[a])@, (#[trigger] *out@[b])@) == Order::Less by {
                    assert((*out@[a])@ == self@[a].0);
                    assert((*out@[b])@ == self@[b].0);
                }
            }
        }
        out
    }

    /// The entries, in key order.
    pub fn iter(&self) -> (r: Vec<(&V, &V)>)
        ensures
            r@.len() == self@.len(),
            forall|i: int| 0 <= i < r@.len() ==> ((*r@[i].0)@, (*r@[i].1)@) == #[trigger] self@[i],
    {
        let n = self.0.len();
        let mut out: Vec<(&V, &V)> = Vec::new();
        let mut i: usize = 0;
        while i < n
            invariant
                n == self.0@.len(),
                i <= n,
                out@.len() == i,
                forall|j: int| 0 <= j < i ==> ((*out@[j].0)@, (*out@[j].1)@) == #[trigger] self@[j],
            decreases n - i,
        {
            out.push((&self.0[i].0, &self.0[i].1));
            i = i + 1;
        }
        out
    }

    /// Mutable access to the value of the entry at position `i`.
    pub fn values_mut(&mut self, i: usize) -> (r: &mut V)
        requires
            i < old(self)@.len(),
        ensures
            *r == old(self).0@[i as int].1,
            final(self).0@ == old(self).0@.update(i as int, (old(self).0@[i as int].0, *final(r))),
            sorted(old(self)@) ==> sorted(final(self)@),
    {
        proof {
            lemma_update_value_sorted(self.0@, i as int);
        }
        &mut self.0[i].1
    }

    /// The value stored under the unary number `n`.
    pub fn get_atomic(&self, n: u32) -> (r: Option<&V>)
        ensures
            match r {
                Some(x) => lookup(self@, atomic_val(n as nat)) == Some(x@),
                None => lookup(self@, atomic_val(n as nat)) is None,
            },
    {
        self.get(&V::atomic(n))
    }

    /// The value stored under the empty value.
    pub fn get_self(&self) -> (r: Option<&V>)
        ensures
            match r {
                Some(x) => lookup(self@, Val::Nil) == Some(x@),
                None => lookup(self@, Val::Nil) is None,
            },
    {
        self.get_atomic(0)
    }

    /// The value stored under the unary number one.
    pub fn get_atomic_one(&self) -> (r: Option<&V>)
        ensures
            match r {
                Some(x) => lookup(self@, atomic_val(1)) == Some(x@),
                None => lookup(self@, atomic_val(1)) is None,
            },
    {
        self.get_atomic(1)
    }

    /// Keeps the entries on which `f` answers true, in order.
    pub fn retain<F: Fn(&V, &V) -> bool>(&mut self, f: F)
        requires
            forall|k: &V, v: &V| #[trigger] f.requires((k, v)),
        ensures
            exists|keep: Seq<bool>| {
                &&& keep.len() == old(self).0@.len()
                &&& forall|i: int| 0 <= i < keep.len() ==> f.ensures((&old(self).0@[i].0, &old(self).0@[i].1), #[trigger] keep[i])
                &&& final(self).0@ == keep_by(old(self).0@, keep)
            },
            sorted(old(self)@) ==> sorted(final(self)@),
    {
        let mut rest: Vec<(V, V)> = Vec::new();
        std::mem::swap(&mut self.0, &mut rest);
        let ghost orig = rest@;
        let ghost o = entries_of(orig);
        let ghost mut keep: Seq<bool> = Seq::empty();
        let n = rest.len();
        let mut i: usize = 0;
        proof {
            assert(orig.take(0) =~= Seq::<(V, V)>::empty());
        }
        while i < n
            invariant
                n == orig.len(),
                i <= n,
                rest@ == orig.skip(i as int),
                keep.len() == i,
                forall|j: int| 0 <= j < i ==> f.ensures((&orig[j].0, &orig[j].1), #[trigger] keep[j]),
                forall|k: &V, v: &V| #[trigger] f.requires((k, v)),
                self.0@ == keep_by(orig.take(i as int), keep),
                o == entries_of(orig),
                sorted(o) ==> sorted(self@),
                sorted(o) ==> forall|j: int, t: int|
                    0 <= j < self@.len() && i <= t < n ==> ord(#[trigger] self@[j].0, #[trigger] o[t].0) == Order::Less,
            decreases n - i,
        {
            let (k, v) = rest.remove(0);
            proof {
                assert(orig[i as int] == (k, v));
                assert(rest@ =~= orig.skip(i + 1));
            }
            let b = f(&k, &v);
            proof {
                let ghost nk = keep.push(b);
                assert(orig.take(i + 1).drop_last() =~= orig.take(i as int));
                crate::order::lemma_keep_by_prefix(orig.take(i as int), keep, nk);
                keep = nk;
            }
            let ghost before = self@;
            if b {
                self.0.push((k, v));
                proof {
                    assert(self@ =~= before.push((k@, v@)));
                    assert(o[i as int] == (k@, v@));
                    if sorted(o) {
                        assert forall|a: int, c: int| 0 <= a < c < self@.len() implies ord(#[trigger] self@[a].0, #[trigger] self@[c].0) == Order::Less by {
                            if c == self@.len() - 1 {
                                assert(self@[c].0 == o[i as int].0);
                                assert(self@[a] == before[a]);
                                assert(ord(before[a].0, o[i as int].0) == Order::Less);
                            } else {
                                assert(self@[a] == before[a]);
                                assert(self@[c] == before[c]);
                            }
                        }
                        assert forall|j: int, t: int| 0 <= j < self@.len() && i + 1 <= t < n implies ord(#[trigger] self@[j].0, #[trigger] o[t].0) == Order::Less by {
                            if j == self@.len() - 1 {
                                assert(self@[j].0 == o[i as int].0);
                                assert(ord(o[i as int].0, o[t].0) == Order::Less);
                            } else {
                                assert(self@[j] == before[j]);
                                assert(ord(before[j].0, o[t].0) == Order::Less);
                            }
                        }
                    }
                }
            }
            i = i + 1;
        }
        proof {
            assert(orig.take(n as int) =~= orig);
        }
    }

    /// The map of the given pairs whose value is not empty; a later pair wins over an earlier one with the same key.
    pub fn from_pairs(pairs: Vec<(V, V)>) -> (r: L)
        ensures
            r@ == collect_nonempty(entries_of(pairs@)),
            sorted(r@),
    {
        let mut rest = pairs;
        let ghost orig = entries_of(rest@);
        let mut out = L::new();
        let n = rest.len();
        let mut i: usize = 0;
        proof {
            assert(orig.take(0) =~= Seq::<(Val, Val)>::empty());
            assert(entries_of(rest@) =~= orig.skip(0));
        }
        while i < n
            invariant
                n == orig.len(),
                i <= n,
                entries_of(rest@) == orig.skip(i as int),
                rest@.len() == n - i,
                out@ == collect_nonempty(orig.take(i as int)),
                sorted(out@),
            decreases n - i,
        {
            let ghost before = rest@;
            let (k, v) = rest.remove(0);
            proof {
                assert(before[0] == (k, v));
                assert(entries_of(before)[0] == (k@, v@));
                assert(orig.skip(i as int)[0] == (k@, v@));
                assert(entries_of(rest@) =~= entries_of(before).drop_first());
                assert(orig.skip(i as int).drop_first() =~= orig.skip(i + 1));
                assert(orig.take(i + 1).drop_last() =~= orig.take(i as int));
                assert(orig.take(i + 1).last() == (k@, v@));
            }
            out.insert(k, v);
            i = i + 1;
        }
        proof {
            assert(orig.take(n as int) =~= orig);
        }
        out
    }

    /// The map of the given pairs; a later pair wins over an earlier one with the same key.
    pub fn from_entries(pairs: Vec<(V, V)>) -> (r: L)
        ensures
            r@ == collect_entries(entries_of(pairs@)),
            sorted(r@),
    {
        let mut rest = pairs;
        let ghost orig = entries_of(rest@);
        let mut out = L::new();
        let n = rest.len();
        let mut i: usize = 0;
        proof {
            assert(orig.take(0) =~= Seq::<(Val, Val)>::empty());
            assert(entries_of(rest@) =~= orig.skip(0));
        }
        while i < n
            invariant
                n == orig.len(),
                i <= n,
                entries_of(rest@) == orig.skip(i as int),
                rest@.len() == n - i,
                out@ == collect_entries(orig.take(i as int)),
            decreases n - i,
        {
            let ghost before = rest@;
            let (k, v) = rest.remove(0);
            proof {
                assert(before[0] == (k, v));
                assert(entries_of(before)[0] == (k@, v@));
                assert(orig.skip(i as int)[0] == (k@, v@));
                assert(entries_of(rest@) =~= entries_of(before).drop_first());
                assert(orig.skip(i as int).drop_first() =~= orig.skip(i + 1));
                assert(orig.take(i + 1).drop_last() =~= orig.take(i as int));
                assert(orig.take(i + 1).last() == (k@, v@));
            }
            out.set(k, v);
            i = i + 1;
        }
        proof {
            assert(orig.take(n as int) =~= orig);
            lemma_collect_sorted(orig);
        }
        out
    }
}

/// Replacing the value of an entry, whatever the new value, keeps the entries in key order.
pub proof fn lemma_update_value_sorted(s: Seq<(V, V)>, i: int)
    requires
        0 <= i < s.len(),
    ensures
        forall|v: V| sorted(entries_of(s)) ==> sorted(#[trigger] entries_of(s.update(i, (s[i].0, v)))),
{
    assert forall|v: V| sorted(entries_of(s)) implies sorted(#[trigger] entries_of(s.update(i, (s[i].0, v)))) by {
        let t = entries_of(s.update(i, (s[i].0, v)));
        let e = entries_of(s);
        assert forall|a: int, b: int| 0 <= a < b < t.len() implies ord(#[trigger] t[a].0, #[trigger] t[b].0) == Order::Less by {
            assert(t[a].0 == e[a].0);
            assert(t[b].0 == e[b].0);
        }
    }
}

} // verus!
