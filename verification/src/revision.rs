//! A second interpreter, built on list kinds: a number is the system list of its
//! bits, a string is the marked list of its character numbers, and a write goes
//! to `.var.` or to `.sys.run.`.
use vstd::prelude::*;
use crate::order::{Val, lookup, collect_entries, keep_by, lemma_keep_by_prefix, find, lemma_find, remove_entry};
use crate::interp::{write_val, write_path, walk_val, walk_or_nil, remove_val};
use crate::text::{valid_code, chars_of};
use lists::{
    MarkedList, LinkedList, ValueFromIteratorMarker, ValueIterator, SysListIter, LinkedListIter,
    collect_all, marked_walk, sys_rest, linked_rest,
};
use crate::interp::name_var;
use crate::ops::name_run;
use crate::render::{
    decimal, all_alnum, alnum_char, list_len, unmarked_index, decimal_digits, quote_string,
    is_indexed_unmarked, is_alphanumeric, push_str,
};
use crate::value::{V, L, lemma_view_node, views, entries_of};
use crate::encode::{atomic_val, bit, sys_list_pairs, Primitive, usize_width, lemma_bit_test};
use vstd::arithmetic::power2::{pow2, lemma2_to64};
use vstd::bits::lemma_u64_shl_is_mul;

pub mod lists;

verus! {

/// The errors a statement can end with.
pub enum InterpError {
    MalformedStatement,
}

/// A side of an assignment.
pub enum Side {
    Lhs,
    Rhs,
}

/// A part of one side of an assignment.
pub enum Part {
    Expr,
    Depth,
}

/// Why a unary number could not be read.
pub enum AtomicError {
    /// A map along the way has more than one entry.
    MapSizeAboveOne,
    /// A map along the way has one entry, not under the empty value.
    NoSelfKey,
}

/// Why this interpreter stops for good.
pub enum Halt {
    /// Reading a unary number met the empty value under the empty key.
    SelfUnderSelf,
    /// A unary number too deep for a 32-bit counter.
    CountOverflow,
    /// A bit position at or beyond the width of the number being read.
    ShiftOverflow,
    /// A program that is the empty value.
    SysListNotMap,
    /// A program with more statements than a 32-bit counter can number.
    IndexOverflow,
    /// A statement that is the empty value.
    AssignmentNotMap,
    /// A statement with nothing under the empty key.
    NoLhs,
    /// A statement with nothing under the unary one.
    NoRhs,
    /// A side of a statement that is the empty value.
    SideNotMap(Side),
    /// A side of a statement without its expression or its depth.
    SideMissing(Side, Part),
    /// A side of a statement whose depth is no unary number.
    BadDepth(Side),
    /// A write whose path has no components.
    CannotReplaceRoot,
    /// The first component of a written path is not a string.
    NamespaceNotString,
    /// A write under `.sys.` other than at `.sys.<name>.`.
    SysDirect,
    /// The second component of a path under `.sys.` is not a string.
    SysNameNotString,
    /// A write under `.sys.` to a name other than `run`.
    SysNotRun,
    /// The first component of a written path is neither `sys` nor `var`.
    ForbiddenNamespace(Vec<char>),
    /// A write at `.sys.run.`, which would fire an operation; this interpreter fires none.
    FiringUnsupported,
}

/// The model of a `Halt`.
pub enum HaltV {
    SelfUnderSelf,
    CountOverflow,
    ShiftOverflow,
    SysListNotMap,
    IndexOverflow,
    AssignmentNotMap,
    NoLhs,
    NoRhs,
    SideNotMap(Side),
    SideMissing(Side, Part),
    BadDepth(Side),
    CannotReplaceRoot,
    NamespaceNotString,
    SysDirect,
    SysNameNotString,
    SysNotRun,
    ForbiddenNamespace(Seq<char>),
    FiringUnsupported,
}

impl View for Halt {
    type V = HaltV;

    open spec fn view(&self) -> HaltV {
        match self {
            Halt::SelfUnderSelf => HaltV::SelfUnderSelf,
            Halt::CountOverflow => HaltV::CountOverflow,
            Halt::ShiftOverflow => HaltV::ShiftOverflow,
            Halt::SysListNotMap => HaltV::SysListNotMap,
            Halt::IndexOverflow => HaltV::IndexOverflow,
            Halt::AssignmentNotMap => HaltV::AssignmentNotMap,
            Halt::NoLhs => HaltV::NoLhs,
            Halt::NoRhs => HaltV::NoRhs,
            Halt::SideNotMap(s) => HaltV::SideNotMap(*s),
            Halt::SideMissing(s, p) => HaltV::SideMissing(*s, *p),
            Halt::BadDepth(s) => HaltV::BadDepth(*s),
            Halt::CannotReplaceRoot => HaltV::CannotReplaceRoot,
            Halt::NamespaceNotString => HaltV::NamespaceNotString,
            Halt::SysDirect => HaltV::SysDirect,
            Halt::SysNameNotString => HaltV::SysNameNotString,
            Halt::SysNotRun => HaltV::SysNotRun,
            Halt::ForbiddenNamespace(n) => HaltV::ForbiddenNamespace(n@),
            Halt::FiringUnsupported => HaltV::FiringUnsupported,
        }
    }
}

/// Reading the unary number of a map, counting from `i` at this level.
pub open spec fn atomic_walk(v: Val, i: nat) -> Result<Result<nat, AtomicError>, HaltV>
    decreases v,
{
    match v {
        Val::Nil => Err(HaltV::SelfUnderSelf),
        Val::Node(s) => if s.len() == 0 {
            Ok(Ok(i))
        } else if s.len() > 1 {
            Ok(Err(AtomicError::MapSizeAboveOne))
        } else if s[0].0 != Val::Nil {
            Ok(Err(AtomicError::NoSelfKey))
        } else if s[0].1 is Nil {
            Err(HaltV::SelfUnderSelf)
        } else if i >= u32::MAX {
            Err(HaltV::CountOverflow)
        } else {
            atomic_walk(s[0].1, i + 1)
        },
    }
}

/// Reading a value as a unary number: the empty value is zero.
pub open spec fn atomic_try(v: Val) -> Result<Result<nat, AtomicError>, HaltV> {
    match v {
        Val::Nil => Ok(Ok(0)),
        Val::Node(_) => atomic_walk(v, 1),
    }
}

/// Reads a value as a unary number.
pub fn atomic_try_from(v: &V) -> (r: Result<Result<u32, AtomicError>, Halt>)
    ensures
        match atomic_try(v@) {
            Ok(Ok(n)) => r matches Ok(Ok(x)) && x as nat == n,
            Ok(Err(e)) => r == Ok::<Result<u32, AtomicError>, Halt>(Err(e)),
            Err(h) => r matches Err(x) && x@ == h,
        },
{
    let mut got: &L = match &v.0 {
        Some(n) => n,
        None => return Ok(Ok(0)),
    };
    proof {
        lemma_view_node(*got);
    }
    let mut i: u32 = 1;
    loop
        invariant
            i >= 1,
            atomic_try(v@) == atomic_walk(Val::Node(got@), i as nat),
        decreases Val::Node(got@),
    {
        if got.len() == 0 {
            return Ok(Ok(i));
        }
        if got.len() > 1 {
            return Ok(Err(AtomicError::MapSizeAboveOne));
        }
        proof {
            crate::order::lemma_find(got@, Val::Nil);
        }
        let next = match got.get(&V(None)) {
            Some(n) => n,
            None => return Ok(Err(AtomicError::NoSelfKey)),
        };
        let inner: &L = match &next.0 {
            Some(l) => l,
            None => return Err(Halt::SelfUnderSelf),
        };
        if i == u32::MAX {
            return Err(Halt::CountOverflow);
        }
        proof {
            lemma_view_node(*inner);
            assert(got@[0].1 == Val::Node(inner@));
            assert(decreases_to!(Val::Node(got@) => Val::Node(inner@)));
        }
        i = i + 1;
        got = inner;
    }
}

/// The bits of `u` below `w`, each the unary number zero or one.
pub open spec fn bit_atoms(u: nat, w: nat) -> Seq<Val> {
    Seq::new(w, |i: int| atomic_val(if bit(u, i as nat) { 1 } else { 0 }))
}

/// A number written as the system list of its bits.
pub open spec fn bits_val(u: nat, w: nat) -> Val {
    Val::Node(collect_entries(sys_list_pairs(bit_atoms(u, w))))
}

/// Whether bit `idx` of `val` is set.
pub fn bit_set<T: Primitive>(val: T, idx: u32) -> (r: bool)
    requires
        idx < T::width(),
    ensures
        r == bit(val.unsigned(), idx as nat),
{
    let u = val.as_unsigned();
    proof {
        val.unsigned_bound();
        lemma_bit_test(u, idx);
    }
    (u >> (idx as u64)) & 1 == 1
}

/// The number `val` written as the system list of its bits.
pub fn from_prim<T: Primitive>(val: T) -> (r: V)
    ensures
        r@ == bits_val(val.unsigned(), T::width()),
{
    let w = T::bits();
    proof {
        val.unsigned_bound();
    }
    let mut items: Vec<V> = Vec::new();
    let mut i: u32 = 0;
    while i < w
        invariant
            i <= w,
            w == T::width(),
            views(items@) == bit_atoms(val.unsigned(), T::width()).take(i as int),
        decreases w - i,
    {
        let b = bit_set(val, i);
        let x = if b { V::atomic(1) } else { V::atomic(0) };
        let ghost before = items@;
        items.push(x);
        proof {
            crate::value::lemma_views_push(before, x);
            assert(bit_atoms(val.unsigned(), T::width()).take(i + 1) =~= bit_atoms(val.unsigned(), T::width()).take(i as int).push(x@));
        }
        i = i + 1;
    }
    proof {
        assert(bit_atoms(val.unsigned(), T::width()).take(w as int) =~= bit_atoms(val.unsigned(), T::width()));
    }
    V::system_list(items)
}

/// Reading a number from the entries of a map in order: each key must be a unary
/// number below the width, naming a bit, and hold the unary zero (the bit is clear)
/// or one (the bit is set); anything else gives nothing.
pub open spec fn or_keys(s: Seq<(Val, Val)>, w: nat, acc: u64) -> Result<Option<u64>, HaltV>
    decreases s.len(),
{
    if s.len() == 0 {
        Ok(Some(acc))
    } else {
        match atomic_try(s[0].0) {
            Err(h) => Err(h),
            Ok(Err(_)) => Ok(None),
            Ok(Ok(n)) => if n >= w {
                Err(HaltV::ShiftOverflow)
            } else {
                match atomic_try(s[0].1) {
                    Err(h) => Err(h),
                    Ok(Err(_)) => Ok(None),
                    Ok(Ok(b)) => if b == 0 {
                        or_keys(s.drop_first(), w, acc)
                    } else if b == 1 {
                        or_keys(s.drop_first(), w, acc | (1u64 << n))
                    } else {
                        Ok(None)
                    },
                }
            },
        }
    }
}

/// The number a value spells through the entries of its map.
pub open spec fn prim_of(v: Val, w: nat) -> Result<Option<u64>, HaltV> {
    match v {
        Val::Nil => Ok(None),
        Val::Node(s) => or_keys(s, w, 0),
    }
}

proof fn lemma_or_bit_bound(acc: u64, n: u64, w: u64)
    requires
        n < w <= 64,
        acc < pow2(w as nat),
    ensures
        (acc | (1u64 << n)) < pow2(w as nat),
{
    lemma2_to64();
    if w < 64 {
        vstd::arithmetic::power2::lemma_pow2_strictly_increases(w as nat, 64);
        lemma_u64_shl_is_mul(1, w);
        assert(acc < (1u64 << w));
        assert((acc | (1u64 << n)) < (1u64 << w)) by (bit_vector)
            requires
                n < w,
                w < 64,
                acc < (1u64 << w),
        ;
    }
}

/// Reads a value as a `T` through the entries of its map.
pub fn try_to_prim<T: Primitive>(v: &V) -> (r: Result<Option<T>, Halt>)
    ensures
        match prim_of(v@, T::width()) {
            Ok(Some(u)) => r matches Ok(Some(x)) && x.unsigned() == u,
            Ok(None) => r matches Ok(None),
            Err(h) => r matches Err(x) && x@ == h,
        },
{
    let map = match &v.0 {
        Some(m) => m,
        None => return Ok(None),
    };
    proof {
        lemma_view_node(*map);
        lemma2_to64();
    }
    let w = T::bits();
    let entries = map.iter();
    let mut acc: u64 = 0;
    let mut i: usize = 0;
    proof {
        vstd::arithmetic::power2::lemma_pow2_pos(w as nat);
        assert(map@.skip(0) =~= map@);
    }
    while i < entries.len()
        invariant
            i <= entries@.len(),
            entries@.len() == map@.len(),
            forall|j: int| 0 <= j < entries@.len() ==> ((*entries@[j].0)@, (*entries@[j].1)@) == #[trigger] map@[j],
            w == T::width(),
            1 <= w <= 64,
            acc < pow2(w as nat),
            prim_of(v@, T::width()) == or_keys(map@.skip(i as int), w as nat, acc),
        decreases entries@.len() - i,
    {
        let ghost rest = map@.skip(i as int);
        proof {
            assert(rest[0] == map@[i as int]);
            assert(rest.drop_first() =~= map@.skip(i + 1));
        }
        let n = match atomic_try_from(entries[i].0) {
            Err(h) => return Err(h),
            Ok(Err(_)) => return Ok(None),
            Ok(Ok(n)) => n,
        };
        if n >= w {
            return Err(Halt::ShiftOverflow);
        }
        let b = match atomic_try_from(entries[i].1) {
            Err(h) => return Err(h),
            Ok(Err(_)) => return Ok(None),
            Ok(Ok(b)) => b,
        };
        if b == 1 {
            proof {
                lemma_or_bit_bound(acc, n as u64, w as u64);
            }
            acc = acc | (1u64 << (n as u64));
        } else if b != 0 {
            return Ok(None);
        }
        i = i + 1;
    }
    proof {
        assert(map@.skip(i as int).len() == 0);
    }
    Ok(Some(T::from_unsigned(acc)))
}

/// The length a marked list records under its empty key, read as a `usize`.
pub open spec fn marked_count(v: Val) -> Result<Option<u64>, HaltV> {
    match v {
        Val::Nil => Ok(None),
        Val::Node(s) => match lookup(s, Val::Nil) {
            None => Ok(None),
            Some(x) => prim_of(x, usize_width()),
        },
    }
}

/// The length a marked list records, where it records one.
pub fn get_marked_list_len(v: &V) -> (r: Result<Option<usize>, Halt>)
    ensures
        match marked_count(v@) {
            Ok(Some(n)) => r matches Ok(Some(x)) && x as nat == n,
            Ok(None) => r matches Ok(None),
            Err(h) => r matches Err(x) && x@ == h,
        },
{
    let m = match &v.0 {
        Some(m) => m,
        None => return Ok(None),
    };
    proof {
        lemma_view_node(*m);
    }
    match m.get_self() {
        Some(x) => try_to_prim::<usize>(x),
        None => Ok(None),
    }
}

/// The length a marked list records; the list must record one.
pub fn _marked_list_len(v: &V) -> (r: usize)
    requires
        marked_count(v@) is Ok,
        marked_count(v@)->Ok_0 is Some,
    ensures
        r as nat == marked_count(v@)->Ok_0->Some_0,
{
    match get_marked_list_len(v) {
        Ok(Some(n)) => n,
        _ => 0,
    }
}

/// A character written as the system list of the bits of its number.
pub open spec fn char_bits(c: char) -> Val {
    bits_val((c as u32) as nat, 32)
}

/// A string: the marked list of its characters.
pub open spec fn string_val(cs: Seq<char>) -> Val {
    MarkedList::list_of(Seq::new(cs.len(), |i: int| char_bits(cs[i])))
}

/// The marked list of the characters `cs`.
pub fn chars_to_value(cs: &Vec<char>) -> (r: V)
    ensures
        r@ == string_val(cs@),
{
    let mut items: Vec<V> = Vec::new();
    let mut i: usize = 0;
    while i < cs.len()
        invariant
            i <= cs@.len(),
            views(items@) == Seq::new(cs@.len(), |j: int| char_bits(cs@[j])).take(i as int),
        decreases cs@.len() - i,
    {
        let x = from_prim(cs[i] as u32);
        let ghost before = items@;
        items.push(x);
        proof {
            crate::value::lemma_views_push(before, x);
            assert(Seq::new(cs@.len(), |j: int| char_bits(cs@[j])).take(i + 1) =~= Seq::new(cs@.len(), |j: int| char_bits(cs@[j])).take(i as int).push(x@));
        }
        i = i + 1;
    }
    proof {
        assert(Seq::new(cs@.len(), |j: int| char_bits(cs@[j])).take(i as int) =~= Seq::new(cs@.len(), |j: int| char_bits(cs@[j])));
    }
    MarkedList::from_iter(items)
}

/// The marked list of the characters of `s`.
pub fn str_to_value(s: &str) -> (r: V)
    ensures
        r@ == string_val(s@),
{
    chars_to_value(&chars_of(s))
}

/// The characters at the positions `0..n` of a marked list, each read as a 32-bit
/// number through its entries.
pub open spec fn chars_at(s: Seq<(Val, Val)>, n: nat) -> Result<Option<Seq<char>>, HaltV>
    decreases n,
{
    if n == 0 {
        Ok(Some(Seq::empty()))
    } else {
        match chars_at(s, (n - 1) as nat) {
            Err(h) => Err(h),
            Ok(None) => Ok(None),
            Ok(Some(p)) => match lookup(s, bits_val((n - 1) as nat, usize_width())) {
                None => Ok(None),
                Some(y) => match prim_of(y, 32) {
                    Err(h) => Err(h),
                    Ok(None) => Ok(None),
                    Ok(Some(c)) => if valid_code(c as nat) {
                        Ok(Some(p.push((c as u32) as char)))
                    } else {
                        Ok(None)
                    },
                },
            },
        }
    }
}

/// The string a value spells: a marked list recording its length `n`, and
/// exactly its characters at the positions `0..n`.
pub open spec fn string_of(v: Val) -> Result<Option<Seq<char>>, HaltV> {
    match v {
        Val::Nil => Ok(None),
        Val::Node(s) => match marked_count(v) {
            Err(h) => Err(h),
            Ok(None) => Ok(None),
            Ok(Some(n)) => if s.len() != n + 1 { Ok(None) } else { chars_at(s, n as nat) },
        },
    }
}

proof fn lemma_chars_at_stops(s: Seq<(Val, Val)>, n: nat, m: nat)
    requires
        n <= m,
        chars_at(s, n) matches Ok(None),
    ensures
        chars_at(s, m) matches Ok(None),
    decreases m,
{
    if n < m {
        lemma_chars_at_stops(s, n, (m - 1) as nat);
    }
}

proof fn lemma_chars_at_halts(s: Seq<(Val, Val)>, n: nat, m: nat)
    requires
        n <= m,
        chars_at(s, n) is Err,
    ensures
        chars_at(s, m) == chars_at(s, n),
    decreases m,
{
    if n < m {
        lemma_chars_at_halts(s, n, (m - 1) as nat);
    }
}

/// The string a value spells, if it spells one.
pub fn value_as_string(v: &V) -> (r: Result<Option<Vec<char>>, Halt>)
    ensures
        match string_of(v@) {
            Ok(Some(cs)) => r matches Ok(Some(x)) && x@ == cs,
            Ok(None) => r matches Ok(None),
            Err(h) => r matches Err(e) && e@ == h,
        },
{
    let m = match &v.0 {
        Some(m) => m,
        None => return Ok(None),
    };
    proof {
        lemma_view_node(*m);
    }
    let len: usize = match get_marked_list_len(v) {
        Err(h) => return Err(h),
        Ok(None) => return Ok(None),
        Ok(Some(n)) => n,
    };
    if m.len() == 0 || m.len() - 1 != len {
        return Ok(None);
    }
    let ghost s = m@;
    let mut out: Vec<char> = Vec::new();
    let mut i: usize = 0;
    while i < len
        invariant
            i <= len,
            s == m@,
            string_of(v@) == chars_at(s, len as nat),
            chars_at(s, i as nat) == Ok::<Option<Seq<char>>, HaltV>(Some(out@)),
        decreases len - i,
    {
        let key = from_prim(i);
        proof {
            assert(key@ == bits_val(i as nat, usize_width()));
        }
        let y = match m.get(&key) {
            Some(y) => y,
            None => {
                proof {
                    lemma_chars_at_stops(s, (i + 1) as nat, len as nat);
                }
                return Ok(None);
            },
        };
        let code: u32 = match try_to_prim::<u32>(y) {
            Err(h) => {
                proof {
                    lemma_chars_at_halts(s, (i + 1) as nat, len as nat);
                }
                return Err(h);
            },
            Ok(None) => {
                proof {
                    lemma_chars_at_stops(s, (i + 1) as nat, len as nat);
                }
                return Ok(None);
            },
            Ok(Some(c)) => c,
        };
        let c = match crate::text::char_from_u32(code) {
            Some(c) => c,
            None => {
                proof {
                    lemma_chars_at_stops(s, (i + 1) as nat, len as nat);
                }
                return Ok(None);
            },
        };
        proof {
            vstd::utf8::char_u32_cast(c, code);
            assert(((code as u64) as u32) as char == c);
        }
        out.push(c);
        i = i + 1;
    }
    Ok(Some(out))
}

/// The value stored under the string `key`, or the empty value.
pub fn lookup_key(v: &V, key: &str) -> (r: V)
    ensures
        r@ == lists::under(v@, string_val(key@)),
{
    match &v.0 {
        Some(m) => {
            proof {
                lemma_view_node(*m);
            }
            match m.get(&str_to_value(key)) {
                Some(x) => x.clone(),
                None => V(None),
            }
        },
        None => V(None),
    }
}

/// The linked-list path of the given names.
pub fn build_path(components: &Vec<Vec<char>>) -> (r: V)
    ensures
        r@ == LinkedList::list_of(Seq::new(components@.len(), |i: int| string_val(components@[i]@))),
{
    let mut items: Vec<V> = Vec::new();
    let mut i: usize = 0;
    while i < components.len()
        invariant
            i <= components@.len(),
            views(items@) == Seq::new(components@.len(), |j: int| string_val(components@[j]@)).take(i as int),
        decreases components@.len() - i,
    {
        let x = chars_to_value(&components[i]);
        let ghost before = items@;
        items.push(x);
        proof {
            crate::value::lemma_views_push(before, x);
            assert(Seq::new(components@.len(), |j: int| string_val(components@[j]@)).take(i + 1) =~= Seq::new(components@.len(), |j: int| string_val(components@[j]@)).take(i as int).push(x@));
        }
        i = i + 1;
    }
    proof {
        assert(Seq::new(components@.len(), |j: int| string_val(components@[j]@)).take(i as int) =~= Seq::new(components@.len(), |j: int| string_val(components@[j]@)));
    }
    LinkedList::from_iter(items)
}

/// Writes `val` at `path` below `root`, creating maps as needed; `val` is not the empty value.
pub fn doing_the_actual_assignment_no_more_checks(root: &mut V, path: Vec<V>, val: V)
    requires
        val@ != Val::Nil,
    ensures
        final(root)@ == write_val(old(root)@, views(path@), val@),
{
    write_path(root, &path, val);
}

/// Writes `val` at the path of the given names below `root`.
pub fn ensure_path(root: &mut V, components: &Vec<Vec<char>>, val: V)
    requires
        val@ != Val::Nil,
    ensures
        final(root)@ == write_val(old(root)@, Seq::new(components@.len(), |i: int| string_val(components@[i]@)), val@),
{
    let mut comps: Vec<V> = Vec::new();
    let mut i: usize = 0;
    while i < components.len()
        invariant
            i <= components@.len(),
            views(comps@) == Seq::new(components@.len(), |j: int| string_val(components@[j]@)).take(i as int),
        decreases components@.len() - i,
    {
        let x = chars_to_value(&components[i]);
        let ghost before = comps@;
        comps.push(x);
        proof {
            crate::value::lemma_views_push(before, x);
            assert(Seq::new(components@.len(), |j: int| string_val(components@[j]@)).take(i + 1) =~= Seq::new(components@.len(), |j: int| string_val(components@[j]@)).take(i as int).push(x@));
        }
        i = i + 1;
    }
    proof {
        assert(Seq::new(components@.len(), |j: int| string_val(components@[j]@)).take(i as int) =~= Seq::new(components@.len(), |j: int| string_val(components@[j]@)));
    }
    doing_the_actual_assignment_no_more_checks(root, comps, val);
}

/// The names of the path `.ops.<name>.trigger.`.
pub open spec fn trigger_names(name: Seq<char>) -> Seq<Val> {
    seq![string_val(crate::interp::name_ops()), string_val(name), string_val(crate::interp::name_trigger())]
}

/// Gives every registered operation an empty trigger at `.ops.<name>.trigger.`.
pub fn preinit_ops(root: &mut V)
    ensures
        final(root)@ == write_val(
            write_val(old(root)@, trigger_names(crate::ops::name_add()), Val::Node(Seq::empty())),
            trigger_names(crate::ops::name_run()),
            Val::Node(Seq::empty()),
        ),
{
    proof {
        reveal_strlit("ops");
        reveal_strlit("trigger");
        assert("ops"@ =~= crate::interp::name_ops());
        assert("trigger"@ =~= crate::interp::name_trigger());
    }
    let names = crate::ops::registered_op_names();
    let mut k: usize = 0;
    let ghost r0 = root@;
    while k < names.len()
        invariant
            names@.len() == 2,
            names@[0]@ == crate::ops::name_add(),
            names@[1]@ == crate::ops::name_run(),
            "ops"@ == crate::interp::name_ops(),
            "trigger"@ == crate::interp::name_trigger(),
            k <= 2,
            k == 0 ==> root@ == r0,
            k == 1 ==> root@ == write_val(r0, trigger_names(crate::ops::name_add()), Val::Node(Seq::empty())),
            k == 2 ==> root@ == write_val(
                write_val(r0, trigger_names(crate::ops::name_add()), Val::Node(Seq::empty())),
                trigger_names(crate::ops::name_run()),
                Val::Node(Seq::empty()),
            ),
        decreases 2 - k,
    {
        let mut comps: Vec<Vec<char>> = Vec::new();
        comps.push(chars_of("ops"));
        comps.push(chars_of(names[k]));
        comps.push(chars_of("trigger"));
        let e = L::new();
        proof {
            lemma_view_node(e);
            assert(Seq::new(comps@.len(), |i: int| string_val(comps@[i]@)) =~= trigger_names(names@[k as int]@));
        }
        ensure_path(root, &comps, V(Some(e)));
        k = k + 1;
    }
}

/// Which entries hold a value other than the empty one.
pub open spec fn nonempty_flags(s: Seq<(Val, Val)>) -> Seq<bool> {
    Seq::new(s.len(), |i: int| s[i].1 != Val::Nil)
}

/// An element kept is an element of the list.
pub proof fn lemma_keep_by_elem<A>(s: Seq<A>, keep: Seq<bool>, i: int)
    requires
        0 <= i < keep_by(s, keep).len(),
    ensures
        exists|j: int| 0 <= j < s.len() && keep_by(s, keep)[i] == #[trigger] s[j],
    decreases s.len(),
{
    if s.len() > 0 {
        let t = keep_by(s.drop_last(), keep);
        if keep[s.len() - 1] && i == t.len() {
            assert(keep_by(s, keep)[i] == s[s.len() - 1]);
        } else {
            lemma_keep_by_elem(s.drop_last(), keep, i);
            let j = choose|j: int| 0 <= j < s.drop_last().len() && t[i] == #[trigger] s.drop_last()[j];
            assert(s.drop_last()[j] == s[j]);
        }
    }
}

/// Keeping entries commutes with taking their models.
pub proof fn lemma_keep_by_entries(s: Seq<(V, V)>, keep: Seq<bool>)
    ensures
        entries_of(keep_by(s, keep)) == keep_by(entries_of(s), keep),
    decreases s.len(),
{
    if s.len() > 0 {
        lemma_keep_by_entries(s.drop_last(), keep);
        assert(entries_of(s.drop_last()) =~= entries_of(s).drop_last());
        if keep[s.len() - 1] {
            crate::value::lemma_entries_push(keep_by(s.drop_last(), keep), s.last());
        }
    }
}

/// A value with every entry holding the empty value removed, at every depth.
pub open spec fn strip_self(v: Val) -> Val
    decreases v,
{
    match v {
        Val::Nil => Val::Nil,
        Val::Node(s) => {
            let k = keep_by(s, nonempty_flags(s));
            Val::Node(Seq::new(k.len(), |i: int| {
                proof {
                    if 0 <= i < k.len() {
                        lemma_keep_by_elem(s, nonempty_flags(s), i);
                        let j = choose|j: int| 0 <= j < s.len() && k[i] == #[trigger] s[j];
                        assert(decreases_to!(v => s[j].1));
                    }
                }
                (k[i].0, if 0 <= i < k.len() { strip_self(k[i].1) } else { Val::Nil })
            }))
        },
    }
}

/// Removes, at every depth, the entries that hold the empty value.
pub fn remove_nested_self_values(val: &mut V)
    ensures
        final(val)@ == strip_self(old(val)@),
    decreases old(val)@,
{
    let ghost v0 = val@;
    match &mut val.0 {
        None => {},
        Some(m) => {
            let ghost s0 = m.0@;
            proof {
                lemma_view_node(*m);
            }
            m.retain(|_k: &V, x: &V| -> (b: bool)
                ensures
                    b == (x.0 is Some),
                { x.0.is_some() });
            let ghost keep = choose|keep: Seq<bool>| {
                &&& keep.len() == s0.len()
                &&& forall|i: int| 0 <= i < keep.len() ==> (keep[i] == (s0[i].1.0 is Some))
                &&& m.0@ == keep_by(s0, keep)
            };
            proof {
                assert forall|i: int| 0 <= i < keep.len() implies keep[i] == nonempty_flags(entries_of(s0))[i] by {
                    assert(entries_of(s0)[i].1 == s0[i].1@);
                }
                lemma_keep_by_entries(s0, keep);
                lemma_keep_by_prefix(entries_of(s0), keep, nonempty_flags(entries_of(s0)));
            }
            let ghost t = m.0@;
            let n = m.len();
            let mut i: usize = 0;
            while i < n
                invariant
                    n == t.len(),
                    i <= n,
                    m.0@.len() == n,
                    v0 == old(val)@,
                    v0 == Val::Node(entries_of(s0)),
                    entries_of(t) == keep_by(entries_of(s0), nonempty_flags(entries_of(s0))),
                    forall|j: int| i <= j < n ==> m.0@[j] == t[j],
                    forall|j: int| 0 <= j < i ==> m.0@[j].0 == t[j].0 && (#[trigger] m.0@[j].1)@ == strip_self(t[j].1@),
                decreases n - i,
            {
                proof {
                    let k = keep_by(entries_of(s0), nonempty_flags(entries_of(s0)));
                    assert(k[i as int] == entries_of(t)[i as int]);
                    lemma_keep_by_elem(entries_of(s0), nonempty_flags(entries_of(s0)), i as int);
                    let ss = entries_of(s0);
                    let j = choose|j: int| 0 <= j < ss.len() && k[i as int] == #[trigger] ss[j];
                    assert(v0->Node_0 == ss);
                    assert(decreases_to!(v0 => v0->Node_0[j].1));
                    assert(ss[j].1 == t[i as int].1@);
                    assert(m.0@[i as int].1@ == t[i as int].1@);
                }
                remove_nested_self_values(m.values_mut(i));
                i = i + 1;
            }
            proof {
                lemma_view_node(*m);
                let k = keep_by(entries_of(s0), nonempty_flags(entries_of(s0)));
                assert(k.len() == t.len());
                assert forall|j: int| 0 <= j < k.len() implies #[trigger] m@[j] == strip_self(v0)->Node_0[j] by {
                    assert(k[j] == entries_of(t)[j]);
                }
                assert(m@ =~= strip_self(v0)->Node_0);
            }
        },
    }
}

/// Whether each component names an entry of the map reached so far.
pub open spec fn path_exists(node: Val, comps: Seq<Val>) -> bool
    decreases comps.len(),
{
    if comps.len() == 0 {
        true
    } else {
        match node {
            Val::Nil => false,
            Val::Node(s) => match find(s, comps[0]) {
                None => false,
                Some(i) => path_exists(s[i].1, comps.drop_first()),
            },
        }
    }
}

/// `node` with the value that `comps` names replaced by `x`, where the path exists.
pub open spec fn replace_at(node: Val, comps: Seq<Val>, x: Val) -> Val
    decreases comps.len(),
{
    if comps.len() == 0 {
        x
    } else {
        match node {
            Val::Nil => Val::Nil,
            Val::Node(s) => match find(s, comps[0]) {
                None => node,
                Some(i) => Val::Node(s.update(i, (s[i].0, replace_at(s[i].1, comps.drop_first(), x)))),
            },
        }
    }
}

/// The entry for `k` removed from a map; the empty value stays.
pub open spec fn remove_key(v: Val, k: Val) -> Val {
    match v {
        Val::Nil => Val::Nil,
        Val::Node(s) => Val::Node(remove_entry(s, k)),
    }
}

/// Mutable access to the value that `comps[i..end]` names below `root`, where
/// each component names an entry of the map reached so far.
pub fn try_index_path_mut<'a>(root: &'a mut V, comps: &Vec<V>, i: usize, end: usize) -> (r: Option<&'a mut V>)
    requires
        i <= end <= comps@.len(),
    ensures
        ({
            let rest = views(comps@).subrange(i as int, end as int);
            match r {
                Some(x) => {
                    &&& path_exists(old(root)@, rest)
                    &&& (*x)@ == walk_val(old(root)@, rest)
                    &&& final(root)@ == replace_at(old(root)@, rest, (*final(x))@)
                },
                None => !path_exists(old(root)@, rest) && final(root)@ == old(root)@,
            }
        }),
    decreases end - i,
{
    let ghost rest = views(comps@).subrange(i as int, end as int);
    if i == end {
        return Some(root);
    }
    proof {
        assert(rest[0] == comps@[i as int]@);
        assert(rest.drop_first() =~= views(comps@).subrange(i + 1, end as int));
    }
    match &root.0 {
        None => return None,
        Some(m) => {
            proof {
                lemma_view_node(*m);
                lemma_find(m@, comps@[i as int]@);
            }
            if !m.contains_key(&comps[i]) {
                return None;
            }
        },
    }
    match &mut root.0 {
        None => None,
        Some(m) => {
            proof {
                lemma_view_node(*m);
                lemma_view_node(*final(m));
                lemma_find(m@, comps@[i as int]@);
            }
            let ghost s = m@;
            let ghost e = m.0@;
            match m.get_mut(&comps[i]) {
                None => None,
                Some(next) => {
                    let ghost idx = find(s, comps@[i as int]@)->0;
                    proof {
                        crate::value::lemma_entries_update(e, idx, (e[idx].0, *final(next)));
                        assert(s[idx] == (e[idx].0@, e[idx].1@));
                        assert(s.update(idx, (s[idx].0, s[idx].1)) =~= s);
                    }
                    try_index_path_mut(next, comps, i + 1, end)
                },
            }
        },
    }
}

/// Removing the last component through the map its parent path names.
pub proof fn lemma_remove_via_parent(node: Val, comps: Seq<Val>)
    requires
        comps.len() >= 1,
    ensures
        ({
            let p = comps.drop_last();
            if path_exists(node, p) {
                remove_val(node, comps) == replace_at(node, p, remove_key(walk_val(node, p), comps.last()))
            } else {
                remove_val(node, comps) == node
            }
        }),
    decreases comps.len(),
{
    let p = comps.drop_last();
    if comps.len() > 1 {
        match node {
            Val::Nil => {},
            Val::Node(s) => {
                lemma_find(s, comps[0]);
                match find(s, comps[0]) {
                    None => {},
                    Some(i) => {
                        let rest = comps.drop_first();
                        lemma_remove_via_parent(s[i].1, rest);
                        assert(rest.drop_last() =~= p.drop_first());
                        assert(p[0] == comps[0]);
                        assert(s.update(i, (s[i].0, s[i].1)) =~= s);
                    },
                }
            },
        }
    }
}

/// Removes the entry that `components` names, through the map its parent path names.
pub fn remove_the_node_at_this_position_by_indexing_into_parent(root: &mut V, components: &Vec<V>)
    ensures
        final(root)@ == remove_val(old(root)@, views(components@)),
{
    if components.len() == 0 {
        return;
    }
    let n = components.len();
    proof {
        lemma_remove_via_parent(root@, views(components@));
        assert(views(components@).subrange(0, n - 1) =~= views(components@).drop_last());
        assert(views(components@).last() == components@[n - 1]@);
    }
    match try_index_path_mut(root, components, 0, n - 1) {
        Some(parent) => {
            match &mut parent.0 {
                Some(m) => {
                    proof {
                        lemma_view_node(*m);
                    }
                    m.remove(&components[n - 1]);
                    proof {
                        lemma_view_node(*m);
                    }
                },
                None => {},
            }
        },
        None => {},
    }
}

/// The name `sys`.
pub open spec fn name_sys() -> Seq<char> {
    seq!['s', 'y', 's']
}

/// Where a write may go: anything under `.var.`, or exactly `.sys.run.`.
pub open spec fn path_check(comps: Seq<Val>) -> Option<HaltV> {
    if comps.len() == 0 {
        Some(HaltV::CannotReplaceRoot)
    } else {
        match string_of(comps[0]) {
            Err(h) => Some(h),
            Ok(None) => Some(HaltV::NamespaceNotString),
            Ok(Some(f)) => if f == name_sys() {
                if comps.len() != 2 {
                    Some(HaltV::SysDirect)
                } else {
                    match string_of(comps[1]) {
                        Err(h) => Some(h),
                        Ok(None) => Some(HaltV::SysNameNotString),
                        Ok(Some(n)) => if n == name_run() { None } else { Some(HaltV::SysNotRun) },
                    }
                }
            } else if f == name_var() {
                None
            } else {
                Some(HaltV::ForbiddenNamespace(f))
            },
        }
    }
}

/// Why a write at `components` stops the run, if it does: a write may go to `.var.`
/// or to `.sys.run.`.
pub fn sys_path_refusal(components: &Vec<V>) -> (r: Result<(), Halt>)
    ensures
        match path_check(views(components@)) {
            None => r is Ok,
            Some(h) => r matches Err(e) && e@ == h,
        },
{
    proof {
        reveal_strlit("sys");
        reveal_strlit("var");
        reveal_strlit("run");
        assert("sys"@ =~= name_sys());
        assert("var"@ =~= name_var());
        assert("run"@ =~= name_run());
    }
    if components.len() == 0 {
        return Err(Halt::CannotReplaceRoot);
    }
    let first = match value_as_string(&components[0]) {
        Err(h) => return Err(h),
        Ok(None) => return Err(Halt::NamespaceNotString),
        Ok(Some(f)) => f,
    };
    if crate::text::same_chars(&first, "sys") {
        if components.len() != 2 {
            return Err(Halt::SysDirect);
        }
        let opname = match value_as_string(&components[1]) {
            Err(h) => return Err(h),
            Ok(None) => return Err(Halt::SysNameNotString),
            Ok(Some(n)) => n,
        };
        if !crate::text::same_chars(&opname, "run") {
            return Err(Halt::SysNotRun);
        }
        Ok(())
    } else if crate::text::same_chars(&first, "var") {
        Ok(())
    } else {
        Err(Halt::ForbiddenNamespace(first))
    }
}

/// Checks that a write at `components` goes to `.var.` or to `.sys.run.`. Only such a
/// path may be written, so callers test it first with `sys_path_refusal`, which gives
/// the reason a run stops.
pub fn panic_if_write_path_is_not_dot_sys_dot_x_dot_or_dot_var_dot_whatever(components: &Vec<V>)
    requires
        path_check(views(components@)) is None,
{
}

/// Whether a write at `comps` is a write at `.sys.run.`.
pub open spec fn fires(comps: Seq<Val>) -> Result<bool, HaltV> {
    if comps.len() != 2 {
        Ok(false)
    } else {
        match string_of(comps[0]) {
            Err(h) => Err(h),
            Ok(f) => if f != Some(name_sys()) {
                Ok(false)
            } else {
                match string_of(comps[1]) {
                    Err(h) => Err(h),
                    Ok(n) => Ok(n == Some(name_run())),
                }
            },
        }
    }
}

/// Firing the operation a write at `.sys.run.` names: this interpreter fires none, so the run stops.
pub fn fire_op(root: &mut V, written: &V) -> (r: Result<Result<(), InterpError>, Halt>)
    ensures
        r matches Err(e) && e@ == HaltV::FiringUnsupported,
{
    Err(Halt::FiringUnsupported)
}

/// Fires after a write at `.sys.run.`; any other write fires nothing.
pub fn maybe_fire(root: &mut V, components: &Vec<V>, written: &V) -> (r: Result<Result<(), InterpError>, Halt>)
    ensures
        match fires(views(components@)) {
            Err(h) => r matches Err(e) && e@ == h,
            Ok(false) => r == Ok::<Result<(), InterpError>, Halt>(Ok(())) && final(root)@ == old(root)@,
            Ok(true) => r matches Err(e) && e@ == HaltV::FiringUnsupported,
        },
{
    proof {
        reveal_strlit("sys");
        reveal_strlit("run");
        assert("sys"@ =~= name_sys());
        assert("run"@ =~= name_run());
    }
    if components.len() != 2 {
        return Ok(Ok(()));
    }
    match value_as_string(&components[0]) {
        Err(h) => return Err(h),
        Ok(None) => return Ok(Ok(())),
        Ok(Some(f)) => {
            if !crate::text::same_chars(&f, "sys") {
                return Ok(Ok(()));
            }
        },
    }
    match value_as_string(&components[1]) {
        Err(h) => return Err(h),
        Ok(None) => return Ok(Ok(())),
        Ok(Some(n)) => {
            if !crate::text::same_chars(&n, "run") {
                return Ok(Ok(()));
            }
        },
    }
    fire_op(root, written)
}

/// Copies of the given values.
fn clone_values(v: &Vec<V>) -> (r: Vec<V>)
    ensures
        views(r@) == views(v@),
{
    let mut out: Vec<V> = Vec::new();
    let mut i: usize = 0;
    while i < v.len()
        invariant
            i <= v@.len(),
            views(out@) == views(v@).take(i as int),
        decreases v@.len() - i,
    {
        let x = v[i].clone();
        let ghost before = out@;
        out.push(x);
        proof {
            crate::value::lemma_views_push(before, x);
            assert(views(v@).take(i + 1) =~= views(v@).take(i as int).push(x@));
        }
        i = i + 1;
    }
    proof {
        assert(views(v@).take(i as int) =~= views(v@));
    }
    out
}

/// Writing `val` at the path `path`: the empty value removes the entry; any other
/// value loses its entries holding the empty value, is written, and may fire.
pub open spec fn execute_sem(root: Val, path: Val, val: Val) -> Result<(Val, Result<(), InterpError>), HaltV> {
    match marked_walk(path) {
        Err(h) => Err(h),
        Ok(comps) => match path_check(comps) {
            Some(h) => Err(h),
            None => if val == Val::Nil {
                Ok((remove_val(root, comps), Ok(())))
            } else {
                let r2 = write_val(root, comps, strip_self(val));
                match fires(comps) {
                    Err(h) => Err(h),
                    Ok(false) => Ok((r2, Ok(()))),
                    Ok(true) => Err(HaltV::FiringUnsupported),
                }
            },
        },
    }
}

/// Writes `val` at the path `path`, checking where the write goes; writing the
/// empty value removes the entry instead.
pub fn execute_an_assignment_which_might_delete_instead_and_might_fire(root: &mut V, path: &V, val: V) -> (r: Result<Result<(), InterpError>, Halt>)
    ensures
        match execute_sem(old(root)@, path@, val@) {
            Err(h) => r matches Err(e) && e@ == h,
            Ok((r2, res)) => r == Ok::<Result<(), InterpError>, Halt>(res) && final(root)@ == r2,
        },
{
    let mut it = match path.iter::<MarkedList>() {
        Err(h) => return Err(h),
        Ok(it) => it,
    };
    let components = match collect_all(&mut it) {
        Err(h) => return Err(h),
        Ok(c) => c,
    };
    if let Err(h) = sys_path_refusal(&components) {
        return Err(h);
    }
    panic_if_write_path_is_not_dot_sys_dot_x_dot_or_dot_var_dot_whatever(&components);
    if val.0.is_none() {
        remove_the_node_at_this_position_by_indexing_into_parent(root, &components);
        return Ok(Ok(()));
    }
    let mut val = val;
    remove_nested_self_values(&mut val);
    let comps = clone_values(&components);
    doing_the_actual_assignment_no_more_checks(root, comps, val);
    let written = walk_or_nil(root, &components);
    maybe_fire(root, &components, &written)
}

/// A side of a statement: its expression under the empty key, and its depth, a
/// unary number under the unary one; a side without a depth is read with depth zero.
pub open spec fn side_of(pair: Val, side: Side) -> Result<(Val, nat), HaltV> {
    match pair {
        Val::Nil => Err(HaltV::SideNotMap(side)),
        Val::Node(m) => match lookup(m, Val::Nil) {
            None => Err(HaltV::SideMissing(side, Part::Expr)),
            Some(e) => match lookup(m, atomic_val(1)) {
                None => Ok((e, 0)),
                Some(d) => match atomic_try(d) {
                    Err(h) => Err(h),
                    Ok(Err(_)) => Err(HaltV::BadDepth(side)),
                    Ok(Ok(n)) => Ok((e, n)),
                },
            },
        },
    }
}

/// A statement: its left side under the empty key and its right side under the unary one.
pub open spec fn assignment_of(value: Val) -> Result<(Val, nat, Val, nat), HaltV> {
    match value {
        Val::Nil => Err(HaltV::AssignmentNotMap),
        Val::Node(m) => match lookup(m, Val::Nil) {
            None => Err(HaltV::NoLhs),
            Some(lp) => match lookup(m, atomic_val(1)) {
                None => Err(HaltV::NoRhs),
                Some(rp) => match side_of(lp, Side::Lhs) {
                    Err(h) => Err(h),
                    Ok((l, ld)) => match side_of(rp, Side::Rhs) {
                        Err(h) => Err(h),
                        Ok((r, rd)) => Ok((l, ld, r, rd)),
                    },
                },
            },
        },
    }
}

/// Reads one side of a statement.
pub fn extract_pair_value(pair: &V, side: Side) -> (r: Result<(V, u32), Halt>)
    ensures
        match side_of(pair@, side) {
            Ok((e, d)) => r matches Ok((x, dd)) && x@ == e && dd as nat == d,
            Err(h) => r matches Err(x) && x@ == h,
        },
{
    let m = match &pair.0 {
        None => return Err(Halt::SideNotMap(side)),
        Some(m) => m,
    };
    proof {
        lemma_view_node(*m);
    }
    let expr = match m.get_self() {
        None => return Err(Halt::SideMissing(side, Part::Expr)),
        Some(x) => x.clone(),
    };
    let depth = match m.get_atomic_one() {
        None => return Ok((expr, 0)),
        Some(x) => x,
    };
    match atomic_try_from(depth) {
        Err(h) => Err(h),
        Ok(Err(_)) => Err(Halt::BadDepth(side)),
        Ok(Ok(n)) => Ok((expr, n)),
    }
}

/// A statement read: each side's expression and depth.
pub struct Assignment {
    pub lhs_path: V,
    pub lhs_depth: u32,
    pub rhs_path: V,
    pub rhs_depth: u32,
}

/// A statement with both sides dereferenced.
pub struct ResolvedAssignment {
    pub lhs: V,
    pub rhs: V,
}

impl ResolvedAssignment {
    /// The two sides.
    pub fn into_inner(self) -> (r: (V, V))
        ensures
            r.0@ == self.lhs@,
            r.1@ == self.rhs@,
    {
        (self.lhs, self.rhs)
    }
}

/// Following `v` read as a linked-list path from `root`, `n` times over.
pub open spec fn deref_linked(root: Val, v: Val, n: nat) -> Val
    decreases n,
{
    if n == 0 {
        v
    } else {
        walk_val(root, linked_rest(deref_linked(root, v, (n - 1) as nat)))
    }
}

/// The items a walk over `v` as a linked list gives.
fn linked_items(v: &V) -> (r: Vec<V>)
    ensures
        views(r@) == linked_rest(v@),
{
    let mut it = match v.iter::<LinkedList>() {
        Ok(it) => it,
        Err(_) => {
            proof {
                assert(false);
            }
            return Vec::new();
        },
    };
    match collect_all(&mut it) {
        Ok(items) => items,
        Err(_) => {
            proof {
                assert(false);
            }
            Vec::new()
        },
    }
}

/// Replaces `current` by what it names from `root`, `depth` times over.
pub fn resolve_dereferencing_via_depth(current: &mut V, root: &V, depth: u32)
    ensures
        final(current)@ == deref_linked(root@, old(current)@, depth as nat),
{
    let mut k: u32 = 0;
    while k < depth
        invariant
            k <= depth,
            current@ == deref_linked(root@, old(current)@, k as nat),
        decreases depth - k,
    {
        let items = linked_items(current);
        *current = walk_or_nil(root, &items);
        k = k + 1;
    }
}

/// A value to be dereferenced against a root.
pub struct WithRoot<'a> {
    pub item: V,
    pub root: &'a V,
}

/// Pairs a value with the root it is to be dereferenced against.
pub fn with_root<'a>(item: V, root: &'a V) -> (r: WithRoot<'a>)
    ensures
        r.item == item,
        r.root == root,
{
    WithRoot { item, root }
}

impl<'a> WithRoot<'a> {
    /// The value the item names from the root, `depth` times over.
    pub fn resolve_dereferencing(self, depth: u32) -> (r: V)
        ensures
            r@ == deref_linked(self.root@, self.item@, depth as nat),
    {
        let mut item = self.item;
        resolve_dereferencing_via_depth(&mut item, self.root, depth);
        item
    }
}

impl Assignment {
    /// Reads a statement.
    pub fn resolve_from_value(value: &V) -> (r: Result<Assignment, Halt>)
        ensures
            match assignment_of(value@) {
                Ok((l, ld, rr, rd)) => r matches Ok(a) && {
                    &&& a.lhs_path@ == l
                    &&& a.lhs_depth as nat == ld
                    &&& a.rhs_path@ == rr
                    &&& a.rhs_depth as nat == rd
                },
                Err(h) => r matches Err(e) && e@ == h,
            },
    {
        let map = match &value.0 {
            None => return Err(Halt::AssignmentNotMap),
            Some(m) => m,
        };
        proof {
            lemma_view_node(*map);
        }
        let lhs_pair = match map.get_self() {
            None => return Err(Halt::NoLhs),
            Some(x) => x,
        };
        let rhs_pair = match map.get_atomic_one() {
            None => return Err(Halt::NoRhs),
            Some(x) => x,
        };
        let (lhs_path, lhs_depth) = match extract_pair_value(lhs_pair, Side::Lhs) {
            Err(h) => return Err(h),
            Ok(p) => p,
        };
        let (rhs_path, rhs_depth) = match extract_pair_value(rhs_pair, Side::Rhs) {
            Err(h) => return Err(h),
            Ok(p) => p,
        };
        Ok(Assignment { lhs_path, lhs_depth, rhs_path, rhs_depth })
    }

    /// Dereferences both sides against `root`, each as often as its depth says.
    pub fn resolve(self, root: &V) -> (r: ResolvedAssignment)
        ensures
            r.lhs@ == deref_linked(root@, self.lhs_path@, self.lhs_depth as nat),
            r.rhs@ == deref_linked(root@, self.rhs_path@, self.rhs_depth as nat),
    {
        let lhs = with_root(self.lhs_path, root).resolve_dereferencing(self.lhs_depth);
        let rhs = with_root(self.rhs_path, root).resolve_dereferencing(self.rhs_depth);
        ResolvedAssignment { lhs, rhs }
    }
}

/// A report about a statement that failed; the run goes on.
pub enum Diag {
    RuntimeError(V, InterpError),
}

/// The model of a `Diag`.
pub enum DiagV {
    RuntimeError(Val, InterpError),
}

/// The models of a list of reports.
pub open spec fn diag_views(s: Seq<Diag>) -> Seq<DiagV> {
    Seq::new(s.len(), |i: int| match s[i] {
        Diag::RuntimeError(v, e) => DiagV::RuntimeError(v@, e),
    })
}

/// Running one statement: its sides are dereferenced against the root, then the
/// right side is written at the left side.
pub open spec fn stmt_sem(root: Val, stmt: Val) -> Result<(Val, Seq<DiagV>), HaltV> {
    match assignment_of(stmt) {
        Err(h) => Err(h),
        Ok((lp, ld, rp, rd)) => match execute_sem(root, deref_linked(root, lp, ld), deref_linked(root, rp, rd)) {
            Err(h) => Err(h),
            Ok((r2, Err(e))) => Ok((r2, seq![DiagV::RuntimeError(stmt, e)])),
            Ok((r2, Ok(()))) => Ok((r2, Seq::empty())),
        },
    }
}

/// Running the statements `items` in turn, then stopping with `stop` if it is set.
pub open spec fn run_items(root: Val, items: Seq<Val>, stop: Option<HaltV>) -> Result<(Val, Seq<DiagV>), HaltV>
    decreases items.len(),
{
    if items.len() == 0 {
        match stop {
            Some(h) => Err(h),
            None => Ok((root, Seq::empty())),
        }
    } else {
        match stmt_sem(root, items[0]) {
            Err(h) => Err(h),
            Ok((r2, d)) => match run_items(r2, items.drop_first(), stop) {
                Err(h) => Err(h),
                Ok((r3, d2)) => Ok((r3, d + d2)),
            },
        }
    }
}

/// Running a program: the system list of its statements.
pub open spec fn exec_sem(root: Val, prog: Val) -> Result<(Val, Seq<DiagV>), HaltV> {
    match prog {
        Val::Nil => Err(HaltV::SysListNotMap),
        Val::Node(s) => run_items(root, sys_rest(s, 0).0, sys_rest(s, 0).1),
    }
}

/// A walk over the system list `v`; when `MUST_BE_MAP` is set, `v` must be a map.
pub fn iterate_where_self_is_sys_list<'a, const MUST_BE_MAP: bool>(v: &'a V) -> (r: Result<SysListIter<'a, false>, Halt>)
    ensures
        if MUST_BE_MAP && v@ is Nil {
            r matches Err(e) && e@ == HaltV::SysListNotMap
        } else {
            r matches Ok(it) && it.rest() == match v@ {
                Val::Nil => (Seq::<Val>::empty(), None::<HaltV>),
                Val::Node(s) => sys_rest(s, 0),
            }
        },
{
    if MUST_BE_MAP && v.0.is_none() {
        return Err(Halt::SysListNotMap);
    }
    SysListIter::<'a, false>::init(v)
}

/// The end of a run: every statement has been tried.
struct Chennamallikarjuna;

impl Chennamallikarjuna {
    fn flowers<E>(self) -> (r: Result<(), E>)
        ensures
            r matches Ok(()),
    {
        Ok(())
    }
}

/// Runs the program `instructions` against `root`, statement by statement;
/// a statement that fails is reported in `log` and the next one runs.
pub fn exec(root: &mut V, instructions: &V, log: &mut Vec<Diag>) -> (r: Result<Result<(), InterpError>, Halt>)
    ensures
        match exec_sem(old(root)@, instructions@) {
            Err(h) => r matches Err(e) && e@ == h,
            Ok((r2, d)) => r matches Ok(Ok(())) && final(root)@ == r2 && diag_views(final(log)@) == diag_views(old(log)@) + d,
        },
{
    let mut it = match iterate_where_self_is_sys_list::<true>(instructions) {
        Err(h) => return Err(h),
        Ok(it) => it,
    };
    let ghost total = exec_sem(old(root)@, instructions@);
    let ghost mut done: Seq<DiagV> = Seq::empty();
    proof {
        assert(diag_views(log@) =~= diag_views(old(log)@) + done);
        assert(total == match run_items(root@, it.rest().0, it.rest().1) {
            Err(h) => Err(h),
            Ok((r3, d2)) => Ok((r3, done + d2)),
        }) by {
            match run_items(root@, it.rest().0, it.rest().1) {
                Ok((r3, d2)) => {
                    assert(done + d2 =~= d2);
                },
                Err(_) => {},
            }
        }
    }
    loop
        invariant
            total == exec_sem(old(root)@, instructions@),
            total == match run_items(root@, it.rest().0, it.rest().1) {
                Err(h) => Err(h),
                Ok((r3, d2)) => Ok((r3, done + d2)),
            },
            diag_views(log@) == diag_views(old(log)@) + done,
        ensures
            total == Ok::<(Val, Seq<DiagV>), HaltV>((root@, done)),
            diag_views(log@) == diag_views(old(log)@) + done,
        decreases it.rest().0.len(),
    {
        let ghost items = it.rest().0;
        let ghost stop = it.rest().1;
        let statement = match it.next() {
            Err(h) => return Err(h),
            Ok(None) => {
                proof {
                    assert(done + Seq::<DiagV>::empty() =~= done);
                }
                break;
            },
            Ok(Some(x)) => x,
        };
        let a = match Assignment::resolve_from_value(&statement) {
            Err(h) => return Err(h),
            Ok(a) => a,
        };
        let (lhs, rhs) = a.resolve(root).into_inner();
        let ghost r_before = root@;
        match execute_an_assignment_which_might_delete_instead_and_might_fire(root, &lhs, rhs) {
            Err(h) => return Err(h),
            Ok(Err(e)) => {
                let ghost before = log@;
                log.push(Diag::RuntimeError(statement, e));
                proof {
                    assert(diag_views(log@) =~= diag_views(before).push(DiagV::RuntimeError(items[0], e)));
                    let d = seq![DiagV::RuntimeError(items[0], e)];
                    match run_items(root@, items.drop_first(), stop) {
                        Ok((r3, d2)) => {
                            assert(done + (d + d2) =~= (done + d) + d2);
                        },
                        Err(_) => {},
                    }
                    done = done + d;
                    assert(diag_views(log@) =~= diag_views(old(log)@) + done);
                }
            },
            Ok(Ok(())) => {
                proof {
                    match run_items(root@, items.drop_first(), stop) {
                        Ok((r3, d2)) => {
                            assert(Seq::<DiagV>::empty() + d2 =~= d2);
                        },
                        Err(_) => {},
                    }
                }
            },
        }
    }
    Ok(Chennamallikarjuna.flowers())
}

/// Whether the keys of `s` from position `j` on are all unary numbers up to `n`;
/// the walk stops at the first that is not.
pub open spec fn keys_upto(s: Seq<(Val, Val)>, j: nat, n: nat) -> Result<bool, HaltV>
    decreases s.len() - j,
{
    if j >= s.len() {
        Ok(true)
    } else {
        match atomic_try(s[j as int].0) {
            Err(h) => Err(h),
            Ok(Err(_)) => Ok(false),
            Ok(Ok(i)) => if i <= n { keys_upto(s, j + 1, n) } else { Ok(false) },
        }
    }
}

/// The length of a marked list whose keys are all unary numbers up to it.
pub open spec fn marked_index_of(s: Seq<(Val, Val)>) -> Result<Option<nat>, HaltV> {
    match lookup(s, Val::Nil) {
        None => Ok(None),
        Some(x) => match atomic_try(x) {
            Err(h) => Err(h),
            Ok(Err(_)) => Ok(None),
            Ok(Ok(n)) => match keys_upto(s, 0, n) {
                Err(h) => Err(h),
                Ok(b) => Ok(if b { Some(n) } else { None }),
            },
        },
    }
}

/// The length of a marked list whose keys are all unary numbers up to it.
pub fn is_indexed_marked(m: &L) -> (r: Result<Option<usize>, Halt>)
    ensures
        match marked_index_of(m@) {
            Ok(Some(n)) => r matches Ok(Some(x)) && x as nat == n && x <= u32::MAX,
            Ok(None) => r matches Ok(None),
            Err(h) => r matches Err(e) && e@ == h,
        },
{
    let x = match m.get_self() {
        Some(x) => x,
        None => return Ok(None),
    };
    let len: u32 = match atomic_try_from(x) {
        Err(h) => return Err(h),
        Ok(Err(_)) => return Ok(None),
        Ok(Ok(n)) => n,
    };
    let keys = m.keys();
    let mut j: usize = 0;
    while j < keys.len()
        invariant
            j <= keys@.len(),
            keys@.len() == m@.len(),
            forall|i: int| 0 <= i < keys@.len() ==> (*keys@[i])@ == #[trigger] m@[i].0,
            marked_index_of(m@) == match keys_upto(m@, j as nat, len as nat) {
                Err(h) => Err(h),
                Ok(b) => Ok(if b { Some(len as nat) } else { None }),
            },
        decreases keys@.len() - j,
    {
        match atomic_try_from(keys[j]) {
            Err(h) => return Err(h),
            Ok(Err(_)) => return Ok(None),
            Ok(Ok(i)) => {
                if i > len {
                    return Ok(None);
                }
            },
        }
        j = j + 1;
    }
    Ok(Some(len as usize))
}

/// Text, then more text; the first stop wins.
pub open spec fn then_text(a: Result<Seq<char>, HaltV>, b: Result<Seq<char>, HaltV>) -> Result<Seq<char>, HaltV> {
    match a {
        Err(h) => Err(h),
        Ok(x) => match b {
            Err(h) => Err(h),
            Ok(y) => Ok(x + y),
        },
    }
}

/// The text of a value: a unary number as `*n`, a number read through its keys
/// in decimal, a string bare or quoted, a marked list as dotted items, a list in
/// brackets, and any other map in braces; or why printing it stops the run.
pub open spec fn render_of(v: Val) -> Result<Seq<char>, HaltV>
    decreases v, 1int, 0int,
{
    match v {
        Val::Nil => Ok("<self>"@),
        Val::Node(s) => match atomic_try(v) {
            Err(h) => Err(h),
            Ok(Ok(n)) => Ok("*"@ + decimal(n)),
            Ok(Err(_)) => match prim_of(v, 32) {
                Err(h) => Err(h),
                Ok(Some(n)) => Ok(decimal(n as nat)),
                Ok(None) => if s.len() == 0 {
                    Ok("{}"@)
                } else {
                    match marked_index_of(s) {
                        Err(h) => Err(h),
                        Ok(Some(len)) => match string_of(v) {
                            Err(h) => Err(h),
                            Ok(Some(t)) => Ok(if all_alnum(t) { t } else { "\""@ + t + "\""@ }),
                            Ok(None) => then_text(render_marked_of(v, len), Ok("."@)),
                        },
                        Ok(None) => if unmarked_index(s) {
                            then_text(then_text(Ok("["@), render_list_of(v, list_len(s))), Ok("]"@))
                        } else {
                            then_text(then_text(Ok("{"@), render_map_of(v, s.len())), Ok("}"@))
                        },
                    }
                },
            },
        },
    }
}

/// The text of the value under key `k` of the map `v`, or of the empty value.
pub open spec fn render_item_of(v: Val, k: Val) -> Result<Seq<char>, HaltV>
    decreases v, 0int, 0int,
{
    match v {
        Val::Nil => Ok("<self>"@),
        Val::Node(s) => match lookup(s, k) {
            Some(x) => {
                proof {
                    lemma_find(s, k);
                    let j = find(s, k)->0;
                    assert(decreases_to!(v => s[j].1));
                }
                render_of(x)
            },
            None => Ok("<self>"@),
        },
    }
}

/// The items `1..=n` of a marked list, each after a dot.
pub open spec fn render_marked_of(v: Val, n: nat) -> Result<Seq<char>, HaltV>
    decreases v, 0int, n,
{
    if n == 0 {
        Ok(Seq::empty())
    } else {
        then_text(then_text(render_marked_of(v, (n - 1) as nat), Ok("."@)), render_item_of(v, atomic_val(n)))
    }
}

/// The items `0..n` of a list, separated by commas.
pub open spec fn render_list_of(v: Val, n: nat) -> Result<Seq<char>, HaltV>
    decreases v, 0int, n,
{
    if n == 0 {
        Ok(Seq::empty())
    } else if n == 1 {
        render_item_of(v, atomic_val(0))
    } else {
        then_text(then_text(render_list_of(v, (n - 1) as nat), Ok(", "@)), render_item_of(v, atomic_val((n - 1) as nat)))
    }
}

/// The first `n` entries of a map as `key: value`, separated by commas.
pub open spec fn render_map_of(v: Val, n: nat) -> Result<Seq<char>, HaltV>
    decreases v, 0int, n,
{
    match v {
        Val::Nil => Ok(Seq::empty()),
        Val::Node(s) => if n == 0 || n > s.len() {
            Ok(Seq::empty())
        } else {
            let i = n - 1;
            proof {
                assert(decreases_to!(v => s[i].0));
                assert(decreases_to!(v => s[i].1));
            }
            let entry = then_text(then_text(render_of(s[i].0), Ok(": "@)), render_of(s[i].1));
            if n == 1 {
                entry
            } else {
                then_text(then_text(render_map_of(v, (n - 1) as nat), Ok(", "@)), entry)
            }
        },
    }
}

/// Appends the text `t`, unless it stops the run.
fn push_text(out: &mut Vec<char>, t: Result<Vec<char>, Halt>) -> (r: Result<(), Halt>)
    ensures
        match t {
            Ok(x) => r is Ok && final(out)@ == old(out)@ + x@,
            Err(h) => r matches Err(e) && e@ == h@,
        },
{
    match t {
        Ok(x) => {
            let mut x = x;
            out.append(&mut x);
            Ok(())
        },
        Err(h) => Err(h),
    }
}

/// The text of a value, or why printing it stops the run.
pub fn print_value(v: &V) -> (r: Result<Vec<char>, Halt>)
    ensures
        match render_of(v@) {
            Ok(t) => r matches Ok(x) && x@ == t,
            Err(h) => r matches Err(e) && e@ == h,
        },
    decreases v@, 2int,
{
    let m = match &v.0 {
        None => {
            let mut out = Vec::new();
            push_str(&mut out, "<self>");
            return Ok(out);
        },
        Some(m) => m,
    };
    proof {
        lemma_view_node(*m);
    }
    match atomic_try_from(v) {
        Err(h) => return Err(h),
        Ok(Ok(n)) => {
            let mut out = Vec::new();
            push_str(&mut out, "*");
            let mut digits = decimal_digits(n);
            out.append(&mut digits);
            return Ok(out);
        },
        Ok(Err(_)) => {},
    }
    match try_to_prim::<u32>(v) {
        Err(h) => return Err(h),
        Ok(Some(n)) => return Ok(decimal_digits(n)),
        Ok(None) => {},
    }
    if m.is_empty() {
        let mut out = Vec::new();
        push_str(&mut out, "{}");
        return Ok(out);
    }
    match is_indexed_marked(m) {
        Err(h) => return Err(h),
        Ok(Some(len)) => {
            match value_as_string(v) {
                Err(h) => return Err(h),
                Ok(Some(t)) => {
                    let mut bare = true;
                    let mut i: usize = 0;
                    while i < t.len()
                        invariant
                            i <= t@.len(),
                            bare == forall|j: int| 0 <= j < i ==> alnum_char(#[trigger] t@[j]),
                        decreases t@.len() - i,
                    {
                        if !is_alphanumeric(t[i]) {
                            bare = false;
                        }
                        i = i + 1;
                    }
                    return Ok(quote_string(&t, bare));
                },
                Ok(None) => {},
            }
            let mut out = match print_marked(v, m, len as u32) {
                Err(h) => return Err(h),
                Ok(o) => o,
            };
            push_str(&mut out, ".");
            return Ok(out);
        },
        Ok(None) => {},
    }
    if is_indexed_unmarked(m) {
        let mut out = Vec::new();
        push_str(&mut out, "[");
        if let Err(h) = push_text(&mut out, print_list(v, m, m.len() as u32)) {
            return Err(h);
        }
        push_str(&mut out, "]");
        return Ok(out);
    }
    let mut out = Vec::new();
    push_str(&mut out, "{");
    if let Err(h) = push_text(&mut out, print_map(v, m)) {
        return Err(h);
    }
    push_str(&mut out, "}");
    Ok(out)
}

/// The text of the value under `k` in `m`, or of the empty value.
fn print_item(v: &V, m: &L, k: &V) -> (r: Result<Vec<char>, Halt>)
    requires
        v@ == Val::Node(m@),
    ensures
        match render_item_of(v@, k@) {
            Ok(t) => r matches Ok(x) && x@ == t,
            Err(h) => r matches Err(e) && e@ == h,
        },
    decreases v@, 0int,
{
    match m.get(k) {
        Some(x) => {
            proof {
                lemma_find(m@, k@);
                let j = find(m@, k@)->0;
                assert(decreases_to!(v@ => m@[j].1));
            }
            print_value(x)
        },
        None => {
            let mut out = Vec::new();
            push_str(&mut out, "<self>");
            Ok(out)
        },
    }
}

/// The items `1..=len` of a marked list, each after a dot.
fn print_marked(v: &V, m: &L, len: u32) -> (r: Result<Vec<char>, Halt>)
    requires
        v@ == Val::Node(m@),
    ensures
        match render_marked_of(v@, len as nat) {
            Ok(t) => r matches Ok(x) && x@ == t,
            Err(h) => r matches Err(e) && e@ == h,
        },
    decreases v@, 1int,
{
    let mut out: Vec<char> = Vec::new();
    let mut i: u32 = 0;
    while i < len
        invariant
            i <= len,
            v@ == Val::Node(m@),
            render_marked_of(v@, i as nat) is Ok,
            render_marked_of(v@, i as nat)->Ok_0 == out@,
        decreases len - i,
    {
        i = i + 1;
        push_str(&mut out, ".");
        if let Err(h) = push_text(&mut out, print_item(v, m, &V::atomic(i))) {
            proof {
                lemma_render_marked_stops(v@, i as nat, len as nat);
            }
            return Err(h);
        }
    }
    Ok(out)
}

proof fn lemma_render_marked_stops(v: Val, n: nat, m: nat)
    requires
        n <= m,
        render_marked_of(v, n) is Err,
    ensures
        render_marked_of(v, m) == render_marked_of(v, n),
    decreases m,
{
    if n < m {
        lemma_render_marked_stops(v, n, (m - 1) as nat);
    }
}

proof fn lemma_render_list_stops(v: Val, n: nat, m: nat)
    requires
        n <= m,
        render_list_of(v, n) is Err,
    ensures
        render_list_of(v, m) == render_list_of(v, n),
    decreases m,
{
    if n < m {
        lemma_render_list_stops(v, n, (m - 1) as nat);
    }
}

proof fn lemma_render_map_stops(v: Val, n: nat, m: nat)
    requires
        n <= m,
        v is Node,
        m <= v->Node_0.len(),
        render_map_of(v, n) is Err,
    ensures
        render_map_of(v, m) == render_map_of(v, n),
    decreases m,
{
    if n < m {
        lemma_render_map_stops(v, n, (m - 1) as nat);
    }
}

/// The items `0..n` of a list, separated by commas.
fn print_list(v: &V, m: &L, n: u32) -> (r: Result<Vec<char>, Halt>)
    requires
        v@ == Val::Node(m@),
    ensures
        match render_list_of(v@, n as nat) {
            Ok(t) => r matches Ok(x) && x@ == t,
            Err(h) => r matches Err(e) && e@ == h,
        },
    decreases v@, 1int,
{
    let mut out: Vec<char> = Vec::new();
    let mut i: u32 = 0;
    while i < n
        invariant
            i <= n,
            v@ == Val::Node(m@),
            render_list_of(v@, i as nat) is Ok,
            render_list_of(v@, i as nat)->Ok_0 == out@,
        decreases n - i,
    {
        if i > 0 {
            push_str(&mut out, ", ");
        }
        if let Err(h) = push_text(&mut out, print_item(v, m, &V::atomic(i))) {
            proof {
                lemma_render_list_stops(v@, (i + 1) as nat, n as nat);
            }
            return Err(h);
        }
        i = i + 1;
    }
    Ok(out)
}

/// The entries of a map as `key: value`, separated by commas.
fn print_map(v: &V, m: &L) -> (r: Result<Vec<char>, Halt>)
    requires
        v@ == Val::Node(m@),
    ensures
        match render_map_of(v@, m@.len()) {
            Ok(t) => r matches Ok(x) && x@ == t,
            Err(h) => r matches Err(e) && e@ == h,
        },
    decreases v@, 1int,
{
    let entries = m.iter();
    let mut out: Vec<char> = Vec::new();
    let mut i: usize = 0;
    while i < entries.len()
        invariant
            i <= entries@.len(),
            entries@.len() == m@.len(),
            forall|j: int| 0 <= j < entries@.len() ==> ((*entries@[j].0)@, (*entries@[j].1)@) == #[trigger] m@[j],
            v@ == Val::Node(m@),
            render_map_of(v@, i as nat) is Ok,
            render_map_of(v@, i as nat)->Ok_0 == out@,
        decreases entries@.len() - i,
    {
        let (k, x) = entries[i];
        proof {
            assert(((*entries@[i as int].0)@, (*entries@[i as int].1)@) == m@[i as int]);
            assert(decreases_to!(v@ => m@[i as int].0));
            assert(decreases_to!(v@ => m@[i as int].1));
        }
        if i > 0 {
            push_str(&mut out, ", ");
        }
        if let Err(h) = push_text(&mut out, print_value(k)) {
            proof {
                lemma_render_map_stops(v@, (i + 1) as nat, m@.len());
            }
            return Err(h);
        }
        push_str(&mut out, ": ");
        if let Err(h) = push_text(&mut out, print_value(x)) {
            proof {
                lemma_render_map_stops(v@, (i + 1) as nat, m@.len());
            }
            return Err(h);
        }
        i = i + 1;
    }
    Ok(out)
}

/// Numbers as the system list of their bits; a marked list keyed by such
/// numbers of the width of `usize`.
pub struct BitList;

impl crate::parse::Encoding for BitList {
    open spec fn num(u: nat, w: nat) -> Val {
        bits_val(u, w)
    }

    open spec fn marked(items: Seq<Val>) -> Val {
        MarkedList::list_of(items)
    }

    fn num_of<T: Primitive>(x: T) -> (r: V) {
        from_prim(x)
    }

    fn marked_list(items: Vec<V>) -> (r: V) {
        MarkedList::from_iter(items)
    }

    open spec fn path(items: Seq<Val>) -> Val {
        crate::encode::linked_val(items)
    }

    fn path_list(items: Vec<V>) -> (r: V) {
        V::linked_list(items)
    }

    fn string(cs: &Vec<char>) -> (r: V) {
        proof {
            assert(Seq::new(cs@.len(), |i: int| char_bits(cs@[i])) =~= Seq::new(cs@.len(), |i: int| Self::num((cs@[i] as u32) as nat, 32)));
        }
        chars_to_value(cs)
    }
}

/// Reads a source text, writing numbers and marked lists as this interpreter
/// does: `lines!` and a program, or a single value.
pub fn parse_source(src: &str) -> (r: Result<V, crate::parse::SourceError>)
    ensures
        match crate::parse::p_file::<BitList>(src@) {
            Ok(v) => r matches Ok(x) && x@ == v,
            Err(e) => r == Err::<V, crate::parse::SourceError>(e),
        },
{
    crate::parse::parse_source_with::<BitList>(src)
}

} // verus!
