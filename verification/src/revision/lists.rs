//! List kinds: how a list of values is laid out in a map, and walked back.
//!
//! A marked list holds item `i` under the number `i` (written as its bits) and
//! its length under the empty key; a system list holds item `i` under the unary
//! number `i`; a linked list holds its first item under the empty key and the
//! rest under the unary one.
use vstd::prelude::*;
use crate::order::{Val, lookup, set_entry, collect_entries, lemma_find, find};
use crate::value::{V, L, views, lemma_view_node, lemma_views_push};
use crate::encode::{atomic_val, sys_list_pairs, linked_val, usize_width, increment};
use super::{from_prim, bits_val, Halt, HaltV, get_marked_list_len, marked_count};

verus! {

/// A layout of lists in maps.
pub trait ValueFromIteratorMarker {
    /// The value laying out `items`.
    spec fn list_of(items: Seq<Val>) -> Val;

    /// Lays out `items`.
    fn from_iter(items: Vec<V>) -> (r: V)
        ensures
            r@ == Self::list_of(views(items@)),
    ;
}

/// Building a list in a given layout.
pub trait GetList {
    /// Lays out `list` as `M` does.
    fn list<M: ValueFromIteratorMarker>(list: Vec<V>) -> (r: V)
        ensures
            r@ == M::list_of(views(list@)),
    ;
}

impl GetList for V {
    fn list<M: ValueFromIteratorMarker>(list: Vec<V>) -> (r: V) {
        M::from_iter(list)
    }
}

/// A walk over the items of a list value.
pub trait ValueIterator<'a>: Sized {
    /// The items still to come, and why the walk stops the run after them, if it does.
    spec fn rest(&self) -> (Seq<Val>, Option<HaltV>);

    /// The items a walk over `v` gives, or why starting it stops the run.
    spec fn items_of(v: Val) -> Result<(Seq<Val>, Option<HaltV>), HaltV>;

    /// Starts a walk over `v`.
    fn init(v: &'a V) -> (r: Result<Self, Halt>)
        ensures
            match Self::items_of(v@) {
                Ok(x) => r matches Ok(it) && it.rest() == x,
                Err(h) => r matches Err(e) && e@ == h,
            },
    ;

    /// The next item.
    fn next(&mut self) -> (r: Result<Option<V>, Halt>)
        ensures
            ({
                let (s, h) = old(self).rest();
                if s.len() > 0 {
                    r matches Ok(Some(x)) && x@ == s[0] && final(self).rest() == (s.drop_first(), h)
                } else {
                    match h {
                        Some(hv) => r matches Err(e) && e@ == hv,
                        None => r matches Ok(None) && final(self).rest() == (s, h),
                    }
                }
            }),
    ;
}

/// A list kind that can be walked.
pub trait ValueIteratorMarker {
    type IntoIter<'a>: ValueIterator<'a>;
}

impl V {
    /// Starts a walk over this value as a list of kind `M`.
    pub fn iter<'a, M: ValueIteratorMarker>(&'a self) -> (r: Result<M::IntoIter<'a>, Halt>)
        ensures
            match <M::IntoIter<'a> as ValueIterator<'a>>::items_of(self@) {
                Ok(x) => r matches Ok(it) && it.rest() == x,
                Err(h) => r matches Err(e) && e@ == h,
            },
    {
        <M::IntoIter<'a> as ValueIterator<'a>>::init(self)
    }
}

/// Walks `it` to its end, collecting the items.
pub fn collect_all<'a, I: ValueIterator<'a>>(it: &mut I) -> (r: Result<Vec<V>, Halt>)
    ensures
        match old(it).rest().1 {
            None => r matches Ok(v) && views(v@) == old(it).rest().0,
            Some(h) => r matches Err(e) && e@ == h,
        },
{
    let mut out: Vec<V> = Vec::new();
    loop
        invariant
            old(it).rest().0 == views(out@) + it.rest().0,
            old(it).rest().1 == it.rest().1,
        decreases it.rest().0.len(),
    {
        let ghost before = it.rest().0;
        match it.next() {
            Err(e) => {
                return Err(e);
            },
            Ok(None) => {
                proof {
                    assert(views(out@) + before =~= views(out@));
                }
                return Ok(out);
            },
            Ok(Some(x)) => {
                let ghost prev = out@;
                out.push(x);
                proof {
                    lemma_views_push(prev, x);
                    assert(views(prev) + before =~= views(prev).push(x@) + before.drop_first());
                }
            },
        }
    }
}

//////////////////////////////// marked lists ////////////////////////////////

/// Marked lists.
pub struct MarkedList;

/// The pairs of a marked list's items.
pub open spec fn marked_item_pairs(items: Seq<Val>) -> Seq<(Val, Val)> {
    Seq::new(items.len(), |i: int| (bits_val(i as nat, usize_width()), items[i]))
}

impl ValueFromIteratorMarker for MarkedList {
    open spec fn list_of(items: Seq<Val>) -> Val {
        Val::Node(set_entry(
            collect_entries(marked_item_pairs(items)),
            Val::Nil,
            bits_val(items.len(), usize_width()),
        ))
    }

    fn from_iter(items: Vec<V>) -> (r: V) {
        let ghost vs = views(items@);
        let mut n: usize = 0;
        let mut pairs: Vec<(V, V)> = Vec::new();
        let mut rest = items;
        let len = rest.len();
        proof {
            assert(views(rest@) =~= vs.skip(0));
        }
        while n < len
            invariant
                len == vs.len(),
                n <= len,
                rest@.len() == len - n,
                views(rest@) == vs.skip(n as int),
                crate::value::entries_of(pairs@) == marked_item_pairs(vs).take(n as int),
            decreases len - n,
        {
            let ghost before = rest@;
            let val = rest.remove(0);
            proof {
                crate::value::lemma_views_remove_first(before);
                assert(views(before)[0] == val@);
                assert(vs.skip(n as int)[0] == val@);
                assert(views(rest@) =~= vs.skip(n + 1));
            }
            let k = from_prim(increment(&mut n));
            let ghost before = pairs@;
            pairs.push((k, val));
            proof {
                crate::value::lemma_entries_push(before, (k, val));
                assert(marked_item_pairs(vs).take(n as int) =~= marked_item_pairs(vs).take(n - 1).push((k@, val@)));
            }
        }
        proof {
            assert(marked_item_pairs(vs).take(len as int) =~= marked_item_pairs(vs));
        }
        let mut m = L::from_entries(pairs);
        m.insert(V(None), from_prim(n));
        proof {
            lemma_view_node(m);
        }
        V(Some(m))
    }
}

/// A walk over a marked list: the positions still to read, and the map.
pub struct MarkedListIter<'a> {
    pub next: usize,
    pub end: usize,
    pub m: Option<&'a L>,
}

/// The items a marked list holds at positions `next, next + 1, ...` below `end`,
/// up to the first position that holds nothing.
pub open spec fn marked_rest(m: Option<Seq<(Val, Val)>>, next: nat, end: nat) -> Seq<Val>
    decreases end - next,
{
    match m {
        None => Seq::empty(),
        Some(s) => if next >= end {
            Seq::empty()
        } else {
            match lookup(s, bits_val(next, usize_width())) {
                None => Seq::empty(),
                Some(x) => seq![x] + marked_rest(m, next + 1, end),
            }
        },
    }
}

/// The items a walk over a marked list gives: those at positions below the
/// length it records, up to the first missing one, or none where it records none.
pub open spec fn marked_walk(v: Val) -> Result<Seq<Val>, HaltV> {
    match marked_count(v) {
        Err(h) => Err(h),
        Ok(n) => Ok(match v {
            Val::Nil => Seq::empty(),
            Val::Node(s) => marked_rest(
                Some(s),
                0,
                match n {
                    Some(k) => k as nat,
                    None => 0,
                },
            ),
        }),
    }
}

impl<'a> ValueIterator<'a> for MarkedListIter<'a> {
    open spec fn rest(&self) -> (Seq<Val>, Option<HaltV>) {
        (marked_rest(
            match self.m {
                Some(l) => Some(l@),
                None => None,
            },
            self.next as nat,
            self.end as nat,
        ), None)
    }

    open spec fn items_of(v: Val) -> Result<(Seq<Val>, Option<HaltV>), HaltV> {
        match marked_walk(v) {
            Err(h) => Err(h),
            Ok(items) => Ok((items, None)),
        }
    }

    fn init(v: &'a V) -> (r: Result<Self, Halt>) {
        let end = match get_marked_list_len(v) {
            Err(h) => return Err(h),
            Ok(Some(n)) => n,
            Ok(None) => 0,
        };
        proof {
            match &v.0 {
                Some(l) => lemma_view_node(*l),
                None => {},
            }
        }
        Ok(MarkedListIter { next: 0, end, m: v.0.as_ref() })
    }

    fn next(&mut self) -> (r: Result<Option<V>, Halt>) {
        let m = match self.m {
            Some(m) => m,
            None => return Ok(None),
        };
        if self.next >= self.end {
            proof {
                assert(self.rest().0.len() == 0);
            }
            return Ok(None);
        }
        let i = self.next;
        let ghost s = m@;
        let key = from_prim(i);
        proof {
            assert(key@ == bits_val(i as nat, usize_width()));
        }
        match m.get(&key) {
            Some(x) => {
                self.next = i + 1;
                proof {
                    assert(marked_rest(Some(s), (i + 1) as nat, self.end as nat) =~= marked_rest(Some(s), i as nat, self.end as nat).drop_first());
                }
                Ok(Some(x.clone()))
            },
            None => {
                self.next = self.end;
                Ok(None)
            },
        }
    }
}

impl ValueIteratorMarker for MarkedList {
    type IntoIter<'a> = MarkedListIter<'a>;
}

//////////////////////////////// system lists ////////////////////////////////

/// System lists; a walk over one that is the empty value stops the run when
/// `MUST_BE_MAP` is set, and gives nothing otherwise.
pub struct SysList<const MUST_BE_MAP: bool>;

impl ValueFromIteratorMarker for SysList<true> {
    open spec fn list_of(items: Seq<Val>) -> Val {
        Val::Node(collect_entries(sys_list_pairs(items)))
    }

    fn from_iter(items: Vec<V>) -> (r: V) {
        V::system_list(items)
    }
}

/// The items of a system list from the unary key `i` to the first missing key,
/// and whether the 32-bit counter runs out first.
pub open spec fn sys_rest(s: Seq<(Val, Val)>, i: nat) -> (Seq<Val>, Option<HaltV>)
    decreases u32::MAX - i,
{
    if i >= u32::MAX {
        (Seq::empty(), Some(HaltV::IndexOverflow))
    } else {
        match lookup(s, atomic_val(i)) {
            None => (Seq::empty(), None),
            Some(x) => {
                let (t, h) = sys_rest(s, i + 1);
                (seq![x] + t, h)
            },
        }
    }
}

/// A walk over a system list: the next key, whether it has ended, and the map.
pub struct SysListIter<'a, const MUST_BE_MAP: bool> {
    pub current: u32,
    pub done: bool,
    pub map: Option<&'a L>,
}

impl<'a, const MUST_BE_MAP: bool> ValueIterator<'a> for SysListIter<'a, MUST_BE_MAP> {
    open spec fn rest(&self) -> (Seq<Val>, Option<HaltV>) {
        if self.done {
            (Seq::empty(), None)
        } else {
            match self.map {
                None => if MUST_BE_MAP {
                    (Seq::empty(), Some(HaltV::SysListNotMap))
                } else {
                    (Seq::empty(), None)
                },
                Some(l) => sys_rest(l@, self.current as nat),
            }
        }
    }

    open spec fn items_of(v: Val) -> Result<(Seq<Val>, Option<HaltV>), HaltV> {
        match v {
            Val::Nil => Ok((Seq::empty(), if MUST_BE_MAP { Some(HaltV::SysListNotMap) } else { None })),
            Val::Node(s) => Ok(sys_rest(s, 0)),
        }
    }

    fn init(v: &'a V) -> (r: Result<Self, Halt>) {
        proof {
            match &v.0 {
                Some(l) => lemma_view_node(*l),
                None => {},
            }
        }
        Ok(SysListIter { current: 0, done: false, map: v.0.as_ref() })
    }

    fn next(&mut self) -> (r: Result<Option<V>, Halt>) {
        if self.done {
            return Ok(None);
        }
        let map = match self.map {
            Some(m) => m,
            None => {
                if MUST_BE_MAP {
                    return Err(Halt::SysListNotMap);
                }
                self.done = true;
                return Ok(None);
            },
        };
        let current = self.current;
        if current == u32::MAX {
            return Err(Halt::IndexOverflow);
        }
        self.current = current + 1;
        match map.get_atomic(current) {
            Some(x) => Ok(Some(x.clone())),
            None => {
                self.done = true;
                Ok(None)
            },
        }
    }
}

impl<const MUST_BE_MAP: bool> ValueIteratorMarker for SysList<MUST_BE_MAP> {
    type IntoIter<'a> = SysListIter<'a, MUST_BE_MAP>;
}

//////////////////////////////// linked lists ////////////////////////////////

/// Linked lists.
pub struct LinkedList;

impl ValueFromIteratorMarker for LinkedList {
    open spec fn list_of(items: Seq<Val>) -> Val {
        linked_val(items)
    }

    fn from_iter(items: Vec<V>) -> (r: V) {
        V::linked_list(items)
    }
}

/// The value under key `k` of a map, or the empty value.
pub open spec fn under(v: Val, k: Val) -> Val {
    match v {
        Val::Nil => Val::Nil,
        Val::Node(s) => match lookup(s, k) {
            Some(x) => x,
            None => Val::Nil,
        },
    }
}

/// What a walk over a linked list gives from `c`: at each node the item under
/// the empty key, moving on to the rest under the unary one.
pub open spec fn linked_rest(c: Val) -> Seq<Val>
    decreases c,
{
    match c {
        Val::Nil => Seq::empty(),
        Val::Node(s) => match lookup(s, atomic_val(1)) {
            None => seq![under(c, Val::Nil)],
            Some(x) => {
                proof {
                    lemma_find(s, atomic_val(1));
                    let j = find(s, atomic_val(1))->0;
                    assert(decreases_to!(c => s[j].1));
                }
                seq![under(c, Val::Nil)] + linked_rest(x)
            },
        },
    }
}

/// A walk over a linked list: the node reached.
pub struct LinkedListIter {
    pub current: V,
}

impl<'a> ValueIterator<'a> for LinkedListIter {
    open spec fn rest(&self) -> (Seq<Val>, Option<HaltV>) {
        (linked_rest(self.current@), None)
    }

    open spec fn items_of(v: Val) -> Result<(Seq<Val>, Option<HaltV>), HaltV> {
        Ok((linked_rest(v), None))
    }

    fn init(v: &'a V) -> (r: Result<Self, Halt>) {
        Ok(LinkedListIter { current: v.clone() })
    }

    fn next(&mut self) -> (r: Result<Option<V>, Halt>) {
        let (item, onward) = match &self.current.0 {
            None => return Ok(None),
            Some(map) => {
                proof {
                    lemma_view_node(*map);
                }
                let item = match map.get(&V(None)) {
                    Some(x) => x.clone(),
                    None => V(None),
                };
                let onward = match map.get(&V::atomic(1)) {
                    Some(x) => x.clone(),
                    None => V(None),
                };
                (item, onward)
            },
        };
        self.current = onward;
        Ok(Some(item))
    }
}

impl ValueIteratorMarker for LinkedList {
    type IntoIter<'a> = LinkedListIter;
}

} // verus!
