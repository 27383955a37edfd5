//! How numbers, lists and strings are written as values.
use vstd::prelude::*;
use crate::order::{Val, Order, ord, ord_seq, lemma_ord_equal, lookup, set_entry, collect_entries, collect_nonempty};
use crate::value::{V, L, lemma_view_node, equals, entries_of, views, lemma_views_remove_first, lemma_views_drop_last, lemma_entries_push};
use vstd::arithmetic::power2::{pow2, lemma2_to64, lemma_pow2_pos};
use vstd::bits::{lemma_u64_shr_is_div, lemma_u64_shl_is_mul};

verus! {

/// The unary number `n`: `0` is the empty value, `1` the empty map, and
/// `n + 1` the map whose only entry holds `n` under the empty value.
pub open spec fn atomic_val(n: nat) -> Val
    decreases n,
{
    if n == 0 {
        Val::Nil
    } else if n == 1 {
        Val::Node(Seq::empty())
    } else {
        Val::Node(seq![(Val::Nil, atomic_val((n - 1) as nat))])
    }
}

impl V {
    /// The unary number `n`.
    pub fn atomic(n: u32) -> (r: V)
        ensures
            r@ == atomic_val(n as nat),
    {
        if n == 0 {
            return V(None);
        }
        let empty = L(Vec::new());
        proof {
            lemma_view_node(empty);
            assert(empty@ =~= Seq::empty());
        }
        let mut current = V(Some(empty));
        let mut i: u32 = 1;
        while i < n
            invariant
                1 <= i <= n,
                current@ == atomic_val(i as nat),
            decreases n - i,
        {
            let mut entries: Vec<(V, V)> = Vec::new();
            entries.push((V(None), current));
            let l = L(entries);
            proof {
                lemma_view_node(l);
                assert(l@ =~= seq![(Val::Nil, atomic_val(i as nat))]);
            }
            current = V(Some(l));
            i = i + 1;
        }
        current
    }
}

/// The unary number a value spells, if it spells one.
pub open spec fn atomic_of(v: Val) -> Option<nat>
    decreases v,
{
    match v {
        Val::Nil => Some(0),
        Val::Node(s) => if s.len() == 0 {
            Some(1)
        } else if s.len() > 1 || s[0].0 != Val::Nil {
            None
        } else {
            match s[0].1 {
                Val::Nil => None,
                Val::Node(_) => match atomic_of(s[0].1) {
                    Some(n) => Some(n + 1),
                    None => None,
                },
            }
        },
    }
}

/// A value spells the unary number `n` exactly when it is that number.
pub proof fn lemma_atomic_of(v: Val, n: nat)
    ensures
        (atomic_of(v) == Some(n)) == (v == atomic_val(n)),
    decreases v,
{
    match v {
        Val::Nil => {},
        Val::Node(s) => {
            if s.len() == 1 && s[0].0 == Val::Nil {
                if let Val::Node(_) = s[0].1 {
                    if n >= 2 {
                        lemma_atomic_of(s[0].1, (n - 1) as nat);
                        if v == atomic_val(n) {
                            assert(s[0].1 == atomic_val((n - 1) as nat));
                        }
                        if atomic_of(v) == Some(n) {
                            assert(s =~= seq![(Val::Nil, atomic_val((n - 1) as nat))]);
                        }
                    } else {
                        lemma_atomic_of(s[0].1, 0);
                        if atomic_of(s[0].1) is Some {
                            lemma_atomic_of(s[0].1, atomic_of(s[0].1)->0);
                        }
                    }
                }
            }
            if s.len() == 0 {
                assert(s =~= Seq::<(Val, Val)>::empty());
            }
        },
    }
}

/// Unary numbers are ordered as the numbers they spell.
pub proof fn lemma_atomic_increasing(i: nat, j: nat)
    requires
        i < j,
    ensures
        ord(atomic_val(i), atomic_val(j)) == Order::Less,
    decreases i,
{
    if i >= 2 {
        lemma_atomic_increasing((i - 1) as nat, (j - 1) as nat);
        let s1 = seq![(Val::Nil, atomic_val((i - 1) as nat))];
        let s2 = seq![(Val::Nil, atomic_val((j - 1) as nat))];
        assert(ord(Val::Nil, Val::Nil) == Order::Equal);
        assert(s1[0].0 == Val::Nil && s2[0].0 == Val::Nil);
        assert(ord_seq(s1, s2) == Order::Less);
        assert(atomic_val(i) == Val::Node(s1));
        assert(atomic_val(j) == Val::Node(s2));
    }
}

/// Different unary numbers are different values.
pub proof fn lemma_atomic_injective(i: nat, j: nat)
    ensures
        (atomic_val(i) == atomic_val(j)) == (i == j),
{
    if i < j {
        lemma_atomic_increasing(i, j);
        lemma_ord_equal(atomic_val(i), atomic_val(j));
    } else if j < i {
        lemma_atomic_increasing(j, i);
        lemma_ord_equal(atomic_val(j), atomic_val(i));
    }
}

impl V {
    /// The unary number this value spells, if it spells one that fits in `u32`.
    pub fn try_atomic_to_u32(&self) -> (r: Option<u32>)
        ensures
            r == match atomic_of(self@) {
                Some(n) => if n <= u32::MAX { Some(n as u32) } else { None },
                None => None,
            },
    {
        let got0 = match &self.0 {
            None => return Some(0),
            Some(l) => l,
        };
        proof {
            crate::value::lemma_view_node(*got0);
        }
        let mut got: &L = got0;
        let mut i: u32 = 1;
        loop
            invariant
                i >= 1,
                atomic_of(self@) == match atomic_of(Val::Node(got@)) {
                    Some(m) => Some((m + i - 1) as nat),
                    None => None,
                },
            decreases Val::Node(got@),
        {
            if got.len() == 0 {
                return Some(i);
            }
            if got.len() > 1 {
                return None;
            }
            let next = match got.get(&V(None)) {
                Some(n) => n,
                None => return None,
            };
            let inner = match &next.0 {
                Some(l) => l,
                None => return None,
            };
            proof {
                crate::order::lemma_find(got@, Val::Nil);
                crate::value::lemma_view_node(*inner);
                assert(got@[0].1 == Val::Node(inner@));
                assert(decreases_to!(Val::Node(got@) => Val::Node(inner@)));
            }
            if i == u32::MAX {
                proof {
                    let inner_v = Val::Node(inner@);
                    assert(atomic_of(inner_v) matches Some(m) ==> m >= 1);
                    assert(atomic_of(Val::Node(got@)) matches Some(m) ==> m >= 2);
                }
                return None;
            }
            i = i + 1;
            got = inner;
        }
    }
}

/// Whether bit `i` of `u` is set.
pub open spec fn bit(u: nat, i: nat) -> bool {
    (u / pow2(i)) % 2 == 1
}

/// The entries naming the set bits of `u` below bit `n`: bit `i` is the
/// key `i + 1` holding one.
pub open spec fn prim_bits(u: nat, n: nat) -> Seq<(Val, Val)>
    decreases n,
{
    if n == 0 {
        Seq::empty()
    } else if bit(u, (n - 1) as nat) {
        prim_bits(u, (n - 1) as nat).push((atomic_val(n), atomic_val(1)))
    } else {
        prim_bits(u, (n - 1) as nat)
    }
}

/// A fixed-width number with bit pattern `u`: its set bits, and its width under the empty key.
pub open spec fn prim_val(u: nat, width: nat, marker: nat) -> Val {
    Val::Node(seq![(Val::Nil, atomic_val(marker))] + prim_bits(u, width))
}

/// The set bits and their number read from keys `1` to `n`, or nothing when one of them does not hold one.
pub open spec fn scan_bits(s: Seq<(Val, Val)>, n: nat) -> Option<(nat, nat)>
    decreases n,
{
    if n == 0 {
        Some((0, 0))
    } else {
        match scan_bits(s, (n - 1) as nat) {
            None => None,
            Some((acc, cnt)) => match lookup(s, atomic_val(n)) {
                None => Some((acc, cnt)),
                Some(x) => if x == atomic_val(1) {
                    Some((acc + pow2((n - 1) as nat), cnt + 1))
                } else {
                    None
                },
            },
        }
    }
}

/// The bit pattern a value spells as a number of `width` bits: the empty key must hold
/// the unary `32`, and every other key must be a bit position holding one.
pub open spec fn decode_prim(v: Val, width: nat) -> Option<nat> {
    match v {
        Val::Nil => None,
        Val::Node(s) => if lookup(s, Val::Nil) == Some(atomic_val(32)) {
            match scan_bits(s, width) {
                Some((acc, cnt)) => if s.len() == cnt + 1 { Some(acc) } else { None },
                None => None,
            }
        } else {
            None
        },
    }
}

/// A fixed-width integer type, seen through its bit pattern.
pub trait Primitive: Copy {
    /// The number of bits.
    spec fn width() -> nat;

    /// The bit pattern, read as an unsigned number.
    spec fn unsigned(self) -> nat;

    proof fn unsigned_bound(self)
        ensures
            self.unsigned() < pow2(Self::width()),
            1 <= Self::width() <= 64,
    ;

    /// Values with one bit pattern are one value.
    proof fn unsigned_injective(self, other: Self)
        ensures
            (self.unsigned() == other.unsigned()) == (self == other),
    ;

    fn bits() -> (r: u32)
        ensures
            r == Self::width(),
            1 <= r <= 64,
    ;

    fn as_unsigned(self) -> (r: u64)
        ensures
            r == self.unsigned(),
    ;

    fn from_unsigned(u: u64) -> (r: Self)
        requires
            u < pow2(Self::width()),
        ensures
            r.unsigned() == u,
    ;
}

impl Primitive for u32 {
    open spec fn width() -> nat {
        32
    }

    open spec fn unsigned(self) -> nat {
        self as nat
    }

    proof fn unsigned_bound(self) {
        lemma2_to64();
    }

    proof fn unsigned_injective(self, other: Self) {
    }

    fn bits() -> (r: u32) {
        32
    }

    fn as_unsigned(self) -> (r: u64) {
        self as u64
    }

    fn from_unsigned(u: u64) -> (r: Self) {
        proof {
            lemma2_to64();
        }
        u as u32
    }
}

impl Primitive for i32 {
    open spec fn width() -> nat {
        32
    }

    open spec fn unsigned(self) -> nat {
        if self >= 0 { self as nat } else { (self + 0x1_0000_0000) as nat }
    }

    proof fn unsigned_bound(self) {
        lemma2_to64();
    }

    proof fn unsigned_injective(self, other: Self) {
    }

    fn bits() -> (r: u32) {
        32
    }

    fn as_unsigned(self) -> (r: u64) {
        let r = self as u32 as u64;
        assert(r == if self >= 0 { self as int } else { self + 0x1_0000_0000 }) by (bit_vector)
            requires r == self as u32 as u64;
        r
    }

    fn from_unsigned(u: u64) -> (r: Self) {
        proof {
            lemma2_to64();
        }
        let r = u as u32 as i32;
        assert(u == if r >= 0 { r as int } else { r + 0x1_0000_0000 }) by (bit_vector)
            requires r == u as u32 as i32, u < 0x1_0000_0000;
        r
    }
}

impl Primitive for u8 {
    open spec fn width() -> nat {
        8
    }

    open spec fn unsigned(self) -> nat {
        self as nat
    }

    proof fn unsigned_bound(self) {
        lemma2_to64();
    }

    proof fn unsigned_injective(self, other: Self) {
    }

    fn bits() -> (r: u32) {
        8
    }

    fn as_unsigned(self) -> (r: u64) {
        self as u64
    }

    fn from_unsigned(u: u64) -> (r: Self) {
        proof {
            lemma2_to64();
        }
        u as u8
    }
}

impl Primitive for u16 {
    open spec fn width() -> nat {
        16
    }

    open spec fn unsigned(self) -> nat {
        self as nat
    }

    proof fn unsigned_bound(self) {
        lemma2_to64();
    }

    proof fn unsigned_injective(self, other: Self) {
    }

    fn bits() -> (r: u32) {
        16
    }

    fn as_unsigned(self) -> (r: u64) {
        self as u64
    }

    fn from_unsigned(u: u64) -> (r: Self) {
        proof {
            lemma2_to64();
        }
        u as u16
    }
}

impl Primitive for u64 {
    open spec fn width() -> nat {
        64
    }

    open spec fn unsigned(self) -> nat {
        self as nat
    }

    proof fn unsigned_bound(self) {
        lemma2_to64();
    }

    proof fn unsigned_injective(self, other: Self) {
    }

    fn bits() -> (r: u32) {
        64
    }

    fn as_unsigned(self) -> (r: u64) {
        self as u64
    }

    fn from_unsigned(u: u64) -> (r: Self) {
        proof {
            lemma2_to64();
        }
        u as u64
    }
}

impl Primitive for i8 {
    open spec fn width() -> nat {
        8
    }

    open spec fn unsigned(self) -> nat {
        if self >= 0 { self as nat } else { (self + 0x100) as nat }
    }

    proof fn unsigned_bound(self) {
        lemma2_to64();
    }

    proof fn unsigned_injective(self, other: Self) {
    }

    fn bits() -> (r: u32) {
        8
    }

    fn as_unsigned(self) -> (r: u64) {
        let r = self as u8 as u64;
        assert(r == if self >= 0 { self as int } else { self + 0x100 }) by (bit_vector)
            requires r == self as u8 as u64;
        r
    }

    fn from_unsigned(u: u64) -> (r: Self) {
        proof {
            lemma2_to64();
        }
        let r = u as u8 as i8;
        assert(u == if r >= 0 { r as int } else { r + 0x100 }) by (bit_vector)
            requires r == u as u8 as i8, u < 0x100;
        r
    }
}

impl Primitive for i16 {
    open spec fn width() -> nat {
        16
    }

    open spec fn unsigned(self) -> nat {
        if self >= 0 { self as nat } else { (self + 0x1_0000) as nat }
    }

    proof fn unsigned_bound(self) {
        lemma2_to64();
    }

    proof fn unsigned_injective(self, other: Self) {
    }

    fn bits() -> (r: u32) {
        16
    }

    fn as_unsigned(self) -> (r: u64) {
        let r = self as u16 as u64;
        assert(r == if self >= 0 { self as int } else { self + 0x1_0000 }) by (bit_vector)
            requires r == self as u16 as u64;
        r
    }

    fn from_unsigned(u: u64) -> (r: Self) {
        proof {
            lemma2_to64();
        }
        let r = u as u16 as i16;
        assert(u == if r >= 0 { r as int } else { r + 0x1_0000 }) by (bit_vector)
            requires r == u as u16 as i16, u < 0x1_0000;
        r
    }
}

impl Primitive for i64 {
    open spec fn width() -> nat {
        64
    }

    open spec fn unsigned(self) -> nat {
        if self >= 0 { self as nat } else { (self + 0x1_0000_0000_0000_0000) as nat }
    }

    proof fn unsigned_bound(self) {
        lemma2_to64();
    }

    proof fn unsigned_injective(self, other: Self) {
    }

    fn bits() -> (r: u32) {
        64
    }

    fn as_unsigned(self) -> (r: u64) {
        let r = self as u64 as u64;
        assert(r == if self >= 0 { self as int } else { self + 0x1_0000_0000_0000_0000 }) by (bit_vector)
            requires r == self as u64 as u64;
        r
    }

    fn from_unsigned(u: u64) -> (r: Self) {
        proof {
            lemma2_to64();
        }
        let r = u as u64 as i64;
        assert(u == if r >= 0 { r as int } else { r + 0x1_0000_0000_0000_0000 }) by (bit_vector)
            requires r == u as u64 as i64, u < 0x1_0000_0000_0000_0000;
        r
    }
}

impl Primitive for usize {
    open spec fn width() -> nat {
        usize::BITS as nat
    }

    open spec fn unsigned(self) -> nat {
        self as nat
    }

    proof fn unsigned_bound(self) {
        lemma2_to64();
        assert(usize::BITS == 32 || usize::BITS == 64);
    }

    proof fn unsigned_injective(self, other: Self) {
    }

    fn bits() -> (r: u32) {
        usize::BITS
    }

    fn as_unsigned(self) -> (r: u64) {
        self as u64
    }

    fn from_unsigned(u: u64) -> (r: Self) {
        proof {
            lemma2_to64();
            assert(usize::BITS == 32 || usize::BITS == 64);
        }
        u as usize
    }
}

/// Once reading bit keys fails, reading further fails too.
pub proof fn lemma_scan_bits_none(s: Seq<(Val, Val)>, n: nat, m: nat)
    requires
        n <= m,
        scan_bits(s, n) is None,
    ensures
        scan_bits(s, m) is None,
    decreases m,
{
    if n < m {
        lemma_scan_bits_none(s, n, (m - 1) as nat);
    }
}

/// Testing a bit by shifting and masking agrees with `bit`.
pub proof fn lemma_bit_test(u: u64, i: u32)
    requires
        i < 64,
    ensures
        (((u >> (i as u64)) & 1u64) == 1u64) == bit(u as nat, i as nat),
{
    lemma_u64_shr_is_div(u, i as u64);
    let x = u >> (i as u64);
    assert(((x & 1u64) == 1u64) == (x % 2 == 1)) by (bit_vector);
}

impl V {
    /// The number `val` written as the set of its bits and its width.
    pub fn from_prim<T: Primitive>(val: T) -> (r: V)
        ensures
            r@ == prim_val(val.unsigned(), T::width(), T::width()),
    {
        let u = val.as_unsigned();
        let w = T::bits();
        proof {
            val.unsigned_bound();
        }
        let mut entries: Vec<(V, V)> = Vec::new();
        entries.push((V(None), V::atomic(w)));
        let mut i: u32 = 0;
        proof {
            assert(entries_of(entries@) =~= seq![(Val::Nil, atomic_val(w as nat))] + prim_bits(u as nat, 0));
        }
        while i < w
            invariant
                i <= w,
                w == T::width(),
                w <= 64,
                u == val.unsigned(),
                entries_of(entries@) == seq![(Val::Nil, atomic_val(w as nat))] + prim_bits(u as nat, i as nat),
            decreases w - i,
        {
            proof {
                lemma_bit_test(u, i);
            }
            let ghost before = entries@;
            if (u >> (i as u64)) & 1 == 1 {
                entries.push((V::atomic(i + 1), V::atomic(1)));
                proof {
                    assert(entries_of(entries@) =~= entries_of(before).push((atomic_val((i + 1) as nat), atomic_val(1))));
                }
            }
            i = i + 1;
        }
        let l = L(entries);
        proof {
            lemma_view_node(l);
        }
        V(Some(l))
    }

    /// The number this value spells as a `T`, if it spells one.
    pub fn try_to_prim<T: Primitive>(&self) -> (r: Option<T>)
        ensures
            match r {
                Some(x) => decode_prim(self@, T::width()) == Some(x.unsigned()),
                None => decode_prim(self@, T::width()) is None,
            },
    {
        let map = match &self.0 {
            Some(m) => m,
            None => return None,
        };
        proof {
            lemma_view_node(*map);
        }
        let marker = match map.get(&V::atomic(0)) {
            Some(x) => x,
            None => return None,
        };
        if !equals(marker, &V::atomic(32)) {
            return None;
        }
        let w = T::bits();
        proof {
            let x: T = arbitrary();
            x.unsigned_bound();
            lemma2_to64();
        }
        let ghost s = map@;
        let mut acc: u64 = 0;
        let mut count: usize = 0;
        let mut i: u32 = 0;
        while i < w
            invariant
                i <= w,
                w == T::width(),
                1 <= w <= 64,
                s == map@,
                self@ == Val::Node(s),
                lookup(s, Val::Nil) == Some(atomic_val(32)),
                scan_bits(s, i as nat) == Some((acc as nat, count as nat)),
                acc < pow2(i as nat),
                count <= i,
            decreases w - i,
        {
            proof {
                vstd::arithmetic::power2::lemma_pow2_unfold((i + 1) as nat);
                lemma_pow2_pos(i as nat);
            }
            match map.get(&V::atomic(i + 1)) {
                None => {},
                Some(val) => {
                    if !equals(val, &V::atomic(1)) {
                        proof {
                            lemma_scan_bits_none(s, (i + 1) as nat, w as nat);
                        }
                        return None;
                    }
                    proof {
                        vstd::bits::lemma_u64_pow2_no_overflow(i as nat);
                        lemma_u64_shl_is_mul(1u64, i as u64);
                        lemma_pow2_pos(i as nat);
                        lemma2_to64();
                        assert(acc < (1u64 << (i as u64)));
                    }
                    let bitv: u64 = 1u64 << (i as u64);
                    assert(acc < bitv ==> (acc | bitv) == acc + bitv) by (bit_vector)
                        requires bitv == 1u64 << (i as u64), i < 64;
                    acc = acc | bitv;
                    count = count + 1;
                },
            }
            i = i + 1;
        }
        if map.len() != count + 1 {
            return None;
        }
        Some(T::from_unsigned(acc))
    }
}

/// The width of `usize`.
pub open spec fn usize_width() -> nat {
    usize::BITS as nat
}

/// The unsigned number `n` as written by `from_prim` for `usize`.
pub open spec fn usize_val(n: nat) -> Val {
    prim_val(n, usize_width(), usize_width())
}

/// The pairs of a system list: item `i` under the unary number `i`.
pub open spec fn sys_list_pairs(items: Seq<Val>) -> Seq<(Val, Val)> {
    Seq::new(items.len(), |i: int| (atomic_val((i % 0x1_0000_0000) as nat), items[i]))
}

/// The 32-bit integer with bit pattern `n`.
pub open spec fn int_val(n: nat) -> Val {
    prim_val(n, 32, 32)
}

/// The pairs of a list: item `i` under the integer `i` (counted modulo 2^32).
pub open spec fn index_pairs(items: Seq<Val>) -> Seq<(Val, Val)> {
    Seq::new(items.len(), |i: int| (int_val((i % 0x1_0000_0000) as nat), items[i]))
}

/// A list: the map of each item under its position, an integer.
pub open spec fn index_val(items: Seq<Val>) -> Val {
    Val::Node(collect_entries(index_pairs(items)))
}

/// The pairs of a marked list: item `i` under the number `i`.
pub open spec fn marked_pairs(items: Seq<Val>) -> Seq<(Val, Val)> {
    Seq::new(items.len(), |i: int| (usize_val(i as nat), items[i]))
}

/// A linked list: the first item under the empty key and the rest under the
/// unary one; empty parts are left out.
pub open spec fn linked_val(items: Seq<Val>) -> Val
    decreases items.len(),
{
    if items.len() == 0 {
        Val::Nil
    } else {
        Val::Node(collect_nonempty(seq![(Val::Nil, items[0]), (atomic_val(1), linked_val(items.drop_first()))]))
    }
}

/// Gives back the counter and advances it.
pub fn increment(n: &mut usize) -> (r: usize)
    requires
        *old(n) < usize::MAX,
    ensures
        r == *old(n),
        *final(n) == *old(n) + 1,
{
    let got = *n;
    *n = *n + 1;
    got
}

impl V {
    /// The items under the unary numbers `0, 1, ...` (counted modulo 2^32).
    pub fn system_list(list: Vec<V>) -> (r: V)
        ensures
            r@ == Val::Node(collect_entries(sys_list_pairs(views(list@)))),
    {
        let ghost items = views(list@);
        let n = list.len();
        let mut rest = list;
        let mut pairs: Vec<(V, V)> = Vec::new();
        let mut i: usize = 0;
        proof {
            assert(views(rest@) =~= items.skip(0));
        }
        while i < n
            invariant
                n == items.len(),
                i <= n,
                rest@.len() == n - i,
                views(rest@) == items.skip(i as int),
                entries_of(pairs@) == sys_list_pairs(items).take(i as int),
            decreases n - i,
        {
            let ghost before = rest@;
            let item = rest.remove(0);
            proof {
                lemma_views_remove_first(before);
                assert(items.skip(i as int).drop_first() =~= items.skip(i + 1));
            }
            let k: u64 = (i as u64) % 0x1_0000_0000;
            let key = V::atomic(k as u32);
            let ghost pb = pairs@;
            pairs.push((key, item));
            proof {
                lemma_entries_push(pb, (key, item));
                assert(sys_list_pairs(items).take(i + 1) =~= sys_list_pairs(items).take(i as int).push((atomic_val(((i as int) % 0x1_0000_0000) as nat), items[i as int])));
            }
            i = i + 1;
        }
        proof {
            assert(sys_list_pairs(items).take(n as int) =~= sys_list_pairs(items));
        }
        let l = L::from_entries(pairs);
        proof {
            lemma_view_node(l);
        }
        V(Some(l))
    }

    /// The items under the integers `0, 1, ...` (counted modulo 2^32).
    pub fn index_list(list: Vec<V>) -> (r: V)
        ensures
            r@ == index_val(views(list@)),
    {
        let ghost items = views(list@);
        let n = list.len();
        let mut rest = list;
        let mut pairs: Vec<(V, V)> = Vec::new();
        let mut i: usize = 0;
        proof {
            assert(views(rest@) =~= items.skip(0));
        }
        while i < n
            invariant
                n == items.len(),
                i <= n,
                rest@.len() == n - i,
                views(rest@) == items.skip(i as int),
                entries_of(pairs@) == index_pairs(items).take(i as int),
            decreases n - i,
        {
            let ghost before = rest@;
            let item = rest.remove(0);
            proof {
                lemma_views_remove_first(before);
                assert(items.skip(i as int).drop_first() =~= items.skip(i + 1));
            }
            let k: u64 = (i as u64) % 0x1_0000_0000;
            let key = V::from_prim(k as u32);
            let ghost pb = pairs@;
            pairs.push((key, item));
            proof {
                lemma_entries_push(pb, (key, item));
                assert(index_pairs(items).take(i + 1) =~= index_pairs(items).take(i as int).push((int_val(((i as int) % 0x1_0000_0000) as nat), items[i as int])));
            }
            i = i + 1;
        }
        proof {
            assert(index_pairs(items).take(n as int) =~= index_pairs(items));
        }
        let l = L::from_entries(pairs);
        proof {
            lemma_view_node(l);
        }
        V(Some(l))
    }

    /// The items under the numbers `0, 1, ...`, and `len` under the empty key.
    pub fn _marked_list(len: usize, list: Vec<V>) -> (r: V)
        ensures
            r@ == Val::Node(collect_entries(marked_pairs(views(list@)).push((Val::Nil, usize_val(len as nat))))),
    {
        let ghost items = views(list@);
        let n = list.len();
        let mut rest = list;
        let mut pairs: Vec<(V, V)> = Vec::new();
        let mut i: usize = 0;
        proof {
            assert(views(rest@) =~= items.skip(0));
        }
        while i < n
            invariant
                n == items.len(),
                i <= n,
                rest@.len() == n - i,
                views(rest@) == items.skip(i as int),
                entries_of(pairs@) == marked_pairs(items).take(i as int),
            decreases n - i,
        {
            let ghost before = rest@;
            let item = rest.remove(0);
            proof {
                lemma_views_remove_first(before);
                assert(items.skip(i as int).drop_first() =~= items.skip(i + 1));
            }
            let key = V::from_prim(i);
            let ghost pb = pairs@;
            pairs.push((key, item));
            proof {
                lemma_entries_push(pb, (key, item));
                assert(marked_pairs(items).take(i + 1) =~= marked_pairs(items).take(i as int).push((usize_val(i as nat), items[i as int])));
            }
            i = i + 1;
        }
        let ghost before = pairs@;
        let last = (V(None), V::from_prim(len));
        pairs.push(last);
        proof {
            assert(marked_pairs(items).take(n as int) =~= marked_pairs(items));
            lemma_entries_push(before, last);
        }
        let l = L::from_entries(pairs);
        proof {
            lemma_view_node(l);
        }
        V(Some(l))
    }

    /// The items under the numbers `0, 1, ...`, and their count under the empty key.
    pub fn marked_list_counted(list: Vec<V>) -> (r: V)
        ensures
            r@ == Val::Node(set_entry(collect_entries(marked_pairs(views(list@))), Val::Nil, usize_val(list@.len()))),
    {
        let ghost items = views(list@);
        let mut n: usize = 0;
        let total = list.len();
        let mut rest = list;
        let mut pairs: Vec<(V, V)> = Vec::new();
        proof {
            assert(views(rest@) =~= items.skip(0));
        }
        while n < total
            invariant
                total == items.len(),
                n <= total,
                rest@.len() == total - n,
                views(rest@) == items.skip(n as int),
                entries_of(pairs@) == marked_pairs(items).take(n as int),
            decreases total - n,
        {
            let ghost before = rest@;
            let item = rest.remove(0);
            proof {
                lemma_views_remove_first(before);
                assert(items.skip(n as int).drop_first() =~= items.skip(n + 1));
            }
            let ghost i = n;
            let key = V::from_prim(increment(&mut n));
            let ghost pb = pairs@;
            pairs.push((key, item));
            proof {
                lemma_entries_push(pb, (key, item));
                assert(marked_pairs(items).take(i + 1) =~= marked_pairs(items).take(i as int).push((usize_val(i as nat), items[i as int])));
            }
        }
        proof {
            assert(marked_pairs(items).take(total as int) =~= marked_pairs(items));
        }
        let mut m = L::from_entries(pairs);
        m.insert(V(None), V::from_prim(n));
        proof {
            lemma_view_node(m);
        }
        V(Some(m))
    }

    /// The length a marked list records under its empty key; the value must be a map
    /// recording a unary number there.
    pub fn _marked_list_len(&self) -> (r: usize)
        requires
            self@ is Node,
            ({
                let x = match lookup(self@->Node_0, Val::Nil) { Some(x) => x, None => Val::Nil };
                atomic_of(x) matches Some(n) && n <= u32::MAX
            }),
        ensures
            ({
                let x = match lookup(self@->Node_0, Val::Nil) { Some(x) => x, None => Val::Nil };
                atomic_of(x) == Some(r as nat)
            }),
    {
        let m = self.0.as_ref().unwrap();
        proof {
            lemma_view_node(*m);
        }
        let n = match m.get(&V::atomic(0)) {
            Some(x) => x.try_atomic_to_u32().unwrap(),
            None => V(None).try_atomic_to_u32().unwrap(),
        };
        n as usize
    }

    /// The length a marked list records under its empty key, if it records a unary number there.
    pub fn get_marked_list_len(&self) -> (r: Option<usize>)
        ensures
            r == marked_len(self@),
    {
        let m = match &self.0 {
            Some(m) => m,
            None => return None,
        };
        proof {
            lemma_view_node(*m);
        }
        let x = match m.get(&V::atomic(0)) {
            Some(x) => x,
            None => return None,
        };
        match x.try_atomic_to_u32() {
            Some(n) => Some(n as usize),
            None => None,
        }
    }

    /// The items chained as a linked list.
    pub fn linked_list(list: Vec<V>) -> (r: V)
        ensures
            r@ == linked_val(views(list@)),
    {
        let ghost items = views(list@);
        let mut rest = list;
        let mut got = V(None);
        let n = rest.len();
        let mut i: usize = n;
        proof {
            assert(items.skip(n as int).len() == 0);
            assert(views(rest@) =~= items.take(n as int));
        }
        while i > 0
            invariant
                n == items.len(),
                i <= n,
                rest@.len() == i,
                views(rest@) == items.take(i as int),
                got@ == linked_val(items.skip(i as int)),
            decreases i,
        {
            let ghost before = rest@;
            let item = rest.pop().unwrap();
            proof {
                lemma_views_drop_last(before);
                assert(items.take(i as int).drop_last() =~= items.take(i - 1));
                assert(items.skip(i - 1).drop_first() =~= items.skip(i as int));
                assert(items.skip(i - 1)[0] == item@);
            }
            let mut pairs: Vec<(V, V)> = Vec::new();
            pairs.push((V(None), item));
            pairs.push((V::atomic(1), got));
            let ghost p = entries_of(pairs@);
            proof {
                assert(p =~= seq![(Val::Nil, items.skip(i - 1)[0]), (atomic_val(1), linked_val(items.skip(i - 1).drop_first()))]);
            }
            let l = L::from_pairs(pairs);
            proof {
                lemma_view_node(l);
            }
            got = V(Some(l));
            i = i - 1;
        }
        proof {
            assert(items.skip(0) =~= items);
        }
        got
    }
}

/// The length a marked list records under its empty key, if it records a unary number there.
pub open spec fn marked_len(v: Val) -> Option<usize> {
    match v {
        Val::Nil => None,
        Val::Node(s) => match lookup(s, Val::Nil) {
            None => None,
            Some(x) => match atomic_of(x) {
                Some(n) => if n <= u32::MAX { Some(n as usize) } else { None },
                None => None,
            },
        },
    }
}

} // verus!
