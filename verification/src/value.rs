//! Executable values: a value is either empty (`V(None)`) or a map whose
//! entries are kept sorted by the structural order of their keys.
use vstd::prelude::*;
use crate::order::{Val, Order, ord, ord_seq, lemma_ord_equal};

verus! {

/// A value of the language.
pub struct V(pub Option<L>);

/// A map from values to values, stored as its entries in key order.
pub struct L(pub Vec<(V, V)>);

/// The model of a value.
pub open spec fn val_of(v: V) -> Val
    decreases v,
{
    match v.0 {
        None => Val::Nil,
        Some(l) => Val::Node(Seq::new(l.0@.len(), |i: int|
            if 0 <= i < l.0@.len() {
                proof {
                    assert(decreases_to!(v => l.0@[i].0));
                }
                (val_of(l.0@[i].0), val_of(l.0@[i].1))
            } else {
                (Val::Nil, Val::Nil)
            })),
    }
}

/// The model of the entries of a map.
pub open spec fn entries_of(s: Seq<(V, V)>) -> Seq<(Val, Val)> {
    Seq::new(s.len(), |i: int| (val_of(s[i].0), val_of(s[i].1)))
}

impl View for V {
    type V = Val;

    open spec fn view(&self) -> Val {
        val_of(*self)
    }
}

impl View for L {
    type V = Seq<(Val, Val)>;

    open spec fn view(&self) -> Seq<(Val, Val)> {
        entries_of(self.0@)
    }
}

/// The model of a map value is its entry list.
pub proof fn lemma_view_node(l: L)
    ensures
        V(Some(l))@ == Val::Node(l@),
{
    assert(V(Some(l))@->Node_0 =~= l@);
}

/// Compares two values in the structural order.
pub fn compare(a: &V, b: &V) -> (r: Order)
    ensures
        r == ord(a@, b@),
    decreases a,
{
    match &a.0 {
        None => match &b.0 {
            None => Order::Equal,
            Some(_) => Order::Less,
        },
        Some(la) => match &b.0 {
            None => Order::Greater,
            Some(lb) => {
                proof {
                    lemma_view_node(*la);
                    lemma_view_node(*lb);
                }
                let n1 = la.0.len();
                let n2 = lb.0.len();
                let mut i: usize = 0;
                proof {
                    assert(la@.skip(0) =~= la@);
                    assert(lb@.skip(0) =~= lb@);
                }
                while i < n1 && i < n2
                    invariant
                        n1 == la@.len(),
                        n2 == lb@.len(),
                        la.0@.len() == n1,
                        lb.0@.len() == n2,
                        i <= n1,
                        i <= n2,
                        *a == V(Some(*la)),
                        ord(a@, b@) == ord_seq(la@, lb@),
                        ord_seq(la@.skip(i as int), lb@.skip(i as int)) == ord_seq(la@, lb@),
                    decreases n1 - i,
                {
                    let ghost s1 = la@.skip(i as int);
                    let ghost s2 = lb@.skip(i as int);
                    proof {
                        assert(decreases_to!(*a => a.0->Some_0.0[i as int].0));
                        assert(decreases_to!(*a => a.0->Some_0.0[i as int].1));
                        assert(s1[0] == la@[i as int]);
                        assert(s2[0] == lb@[i as int]);
                        assert(s1.drop_first() =~= la@.skip(i + 1));
                        assert(s2.drop_first() =~= lb@.skip(i + 1));
                        assert(s1[0].0 == la.0@[i as int].0@);
                        assert(s2[0].0 == lb.0@[i as int].0@);
                        assert(s1[0].1 == la.0@[i as int].1@);
                        assert(s2[0].1 == lb.0@[i as int].1@);
                    }
                    let c = compare(&la.0[i].0, &lb.0[i].0);
                    match c {
                        Order::Equal => {},
                        _ => {
                            return c;
                        },
                    }
                    let c = compare(&la.0[i].1, &lb.0[i].1);
                    match c {
                        Order::Equal => {},
                        _ => {
                            return c;
                        },
                    }
                    i = i + 1;
                }
                if i < n1 {
                    Order::Greater
                } else if i < n2 {
                    Order::Less
                } else {
                    Order::Equal
                }
            },
        },
    }
}

/// Structural equality of two values.
pub fn equals(a: &V, b: &V) -> (r: bool)
    ensures
        r == (a@ == b@),
{
    let c = compare(a, b);
    proof {
        lemma_ord_equal(a@, b@);
    }
    match c {
        Order::Equal => true,
        _ => false,
    }
}

impl Clone for V {
    fn clone(&self) -> (r: Self)
        ensures
            r@ == self@,
        decreases self,
    {
        match &self.0 {
            None => V(None),
            Some(l) => {
                let n = l.0.len();
                let mut out: Vec<(V, V)> = Vec::new();
                let mut i: usize = 0;
                while i < n
                    invariant
                        n == l.0@.len(),
                        i <= n,
                        *self == V(Some(*l)),
                        out@.len() == i,
                        forall|j: int| 0 <= j < i ==> entries_of(out@)[j] == #[trigger] l@[j],
                    decreases n - i,
                {
                    proof {
                        assert(decreases_to!(*self => self.0->Some_0.0[i as int].0));
                        assert(decreases_to!(*self => self.0->Some_0.0[i as int].1));
                    }
                    let k = l.0[i].0.clone();
                    let v = l.0[i].1.clone();
                    out.push((k, v));
                    i = i + 1;
                }
                let r = L(out);
                proof {
                    assert(r@ =~= l@);
                    lemma_view_node(r);
                    lemma_view_node(*l);
                }
                V(Some(r))
            },
        }
    }
}

/// The models of a list of values.
pub open spec fn views(s: Seq<V>) -> Seq<Val> {
    Seq::new(s.len(), |i: int| s[i]@)
}

/// Removing the first value removes the first model.
pub proof fn lemma_views_remove_first(s: Seq<V>)
    requires
        s.len() > 0,
    ensures
        views(s.remove(0)) == views(s).drop_first(),
        views(s)[0] == s[0]@,
{
    assert(views(s.remove(0)) =~= views(s).drop_first());
}

/// Dropping the last value drops the last model.
pub proof fn lemma_views_drop_last(s: Seq<V>)
    requires
        s.len() > 0,
    ensures
        views(s.drop_last()) == views(s).drop_last(),
        views(s)[s.len() - 1] == s[s.len() - 1]@,
{
    assert(views(s.drop_last()) =~= views(s).drop_last());
}

/// Adding an entry adds its model.
pub proof fn lemma_entries_push(s: Seq<(V, V)>, e: (V, V))
    ensures
        entries_of(s.push(e)) == entries_of(s).push((e.0@, e.1@)),
{
    assert(entries_of(s.push(e)) =~= entries_of(s).push((e.0@, e.1@)));
}

/// Adding a value adds its model.
pub proof fn lemma_views_push(s: Seq<V>, v: V)
    ensures
        views(s.push(v)) == views(s).push(v@),
{
    assert(views(s.push(v)) =~= views(s).push(v@));
}

/// Replacing an entry replaces its model.
pub proof fn lemma_entries_update(s: Seq<(V, V)>, i: int, e: (V, V))
    requires
        0 <= i < s.len(),
    ensures
        entries_of(s.update(i, e)) == entries_of(s).update(i, (e.0@, e.1@)),
{
    assert(entries_of(s.update(i, e)) =~= entries_of(s).update(i, (e.0@, e.1@)));
}

} // verus!
