//! Properties that hold across the operations of the language.
use vstd::prelude::*;
use crate::order::{Val, lookup, find, lemma_find, wf, lemma_remove_entry_lookup};
use crate::text::string_of;
use crate::encode::{
    atomic_val, atomic_of, bit, prim_bits, prim_val, scan_bits, decode_prim, lemma_atomic_injective,
};
use crate::render::{render, decimal};
use crate::parse::{
    p_file, p_value, p_number, p_word, p_string_lit, p_string_body, skip_ws, alnum_end, digits_end,
    starts_lines, is_alnum, is_digit, is_ws, Encoding, str_enc,
};
use crate::revision::{execute_sem, strip_self, path_check, fires, name_sys, nonempty_flags};
use crate::revision::lists::marked_walk;
use crate::order::keep_by;
use vstd::arithmetic::power2::{pow2, lemma_pow2_pos, lemma_pow2_unfold};
use vstd::arithmetic::div_mod::{lemma_small_mod, lemma_fundamental_div_mod_converse};
use crate::interp::{
    walk_val, write_val, remove_val, with_slot, lemma_with_slot, path_items, assign_sem,
    check_path, check_value, fire_target, name_var, name_ops, Step, AbortV, extract, InterpError,
};
use crate::ops::op_named;
use crate::order::{collect_entries, lemma_collect_sorted, lemma_set_entry_lookup};
use crate::encode::{sys_list_pairs, lemma_atomic_of};
use crate::interp::{exec_sem, exec_from, stmt_sem, do_set_sem, deref_val, times};
use crate::parse::{sys_val, stmt_val};
use crate::encode::{int_val, index_pairs, index_val};
use crate::interp::{items_from, name_trigger};
use crate::ops::{name_add, name_run, Op, name_program};
use crate::interp::{then_log, OpStep, op_sem, lookup_key, as_i32, DiagV};
use crate::revision::assignment_of;
use crate::order::{lemma_sorted_unique, sorted};
use crate::text::{str_val, char_vals, chars_from, valid_code};
use crate::order::{set_entry, Order, ord, lemma_ord_equal};
use crate::revision::{atomic_try, atomic_walk, AtomicError, HaltV};
use crate::revision::lists::{sys_rest, marked_rest, marked_item_pairs, MarkedList, ValueFromIteratorMarker};
use crate::revision::{bit_atoms, bits_val, prim_of, or_keys, marked_count, char_bits, string_val, chars_at};
use crate::encode::usize_width;
use crate::encode::Primitive;
use crate::interp::{walk_res, fire_sem, path_of, name_args, name_return};
use crate::ops::{add_sem, name_left, name_right};

verus! {

/// Replacing the entry at the first position of key `k` makes `k` read the new value.
pub proof fn lemma_lookup_update(t: Seq<(Val, Val)>, i: int, k: Val, x: Val)
    requires
        find(t, k) == Some(i),
    ensures
        lookup(t.update(i, (k, x)), k) == Some(x),
{
    lemma_find(t, k);
    let u = t.update(i, (k, x));
    lemma_find(u, k);
    match find(u, k) {
        Some(j) => {
            if j < i {
                assert(u[j] == t[j]);
            } else if j > i {
                assert(u[i].0 == k);
            }
        },
        None => {
            assert(u[i].0 == k);
        },
    }
}

/// Reading a path right after writing it gives back the value written.
pub proof fn law_write_then_walk(root: Val, comps: Seq<Val>, val: Val)
    ensures
        walk_val(write_val(root, comps, val), comps) == val,
    decreases comps.len(),
{
    if comps.len() > 0 {
        let s = match root {
            Val::Node(s) => if decode_prim(root, 32) is Some { Seq::empty() } else { s },
            Val::Nil => Seq::empty(),
        };
        let k = comps[0];
        let t = with_slot(s, k);
        lemma_with_slot(s, k);
        let i = find(t, k)->0;
        law_write_then_walk(t[i].1, comps.drop_first(), val);
        lemma_lookup_update(t, i, k, write_val(t[i].1, comps.drop_first(), val));
    }
}

/// Reading a path right after removing it gives the empty value, in a value whose
/// maps keep their keys sorted.
pub proof fn law_remove_then_walk(root: Val, comps: Seq<Val>)
    requires
        wf(root),
        comps.len() > 0,
    ensures
        walk_val(remove_val(root, comps), comps) == Val::Nil,
    decreases comps.len(),
{
    match root {
        Val::Nil => {
            assert(remove_val(root, comps) == Val::Nil);
        },
        Val::Node(s) => {
            let k = comps[0];
            lemma_find(s, k);
            assert(walk_val(Val::Nil, comps.drop_first()) == Val::Nil);
            if comps.len() == 1 {
                lemma_remove_entry_lookup(s, k, k);
            } else {
                match find(s, k) {
                    None => {},
                    Some(i) => {
                        assert(wf(s[i].1));
                        law_remove_then_walk(s[i].1, comps.drop_first());
                        lemma_lookup_update(s, i, k, remove_val(s[i].1, comps.drop_first()));
                        assert(s[i].0 == k);
                    },
                }
            }
        },
    }
}

/// A write under `.var.` passes the namespace checks and fires nothing: writing a
/// non-empty value leaves it readable at the same path, and writing the empty value
/// removes what the path named.
pub proof fn law_var_write_reads_back(root: Val, path: Val, val: Val, fuel: nat)
    requires
        path_items(path).len() > 0,
        string_of(path_items(path)[0]) == Some(name_var()),
    ensures
        assign_sem(root, path, val, fuel) matches Step::Done(r2, d, res) && {
            &&& res is Ok
            &&& d.len() == 0
            &&& val != Val::Nil ==> walk_val(r2, path_items(path)) == val
            &&& (val == Val::Nil && wf(root)) ==> walk_val(r2, path_items(path)) == Val::Nil
        },
{
    let comps = path_items(path);
    assert(name_var()[0] != name_ops()[0]);
    assert(name_var() != name_ops());
    assert(check_path(comps) is None);
    assert(check_value(comps, val) is None);
    if val != Val::Nil {
        let r2 = write_val(root, comps, val);
        assert(fire_target(comps, walk_val(r2, comps)) is None);
        law_write_then_walk(root, comps, val);
    } else if wf(root) {
        law_remove_then_walk(root, comps);
    }
}

/// Reading a key in a list with one more entry at its end.
pub proof fn lemma_lookup_push(t: Seq<(Val, Val)>, e: (Val, Val), k: Val)
    ensures
        lookup(t.push(e), k) == match lookup(t, k) {
            Some(x) => Some(x),
            None => if e.0 == k { Some(e.1) } else { None },
        },
    decreases t.len(),
{
    if t.len() > 0 {
        assert(t.push(e)[0] == t[0]);
        assert(t.push(e).drop_first() =~= t.drop_first().push(e));
        lemma_lookup_push(t.drop_first(), e, k);
    } else {
        assert(t.push(e)[0] == e);
        assert(t.push(e).drop_first().len() == 0);
        assert(lookup(t.push(e).drop_first(), k) is None);
        assert(lookup(t, k) is None);
    }
}

/// The bit keys `1..=w` of a number's bit list hold one exactly where the bit is set.
pub proof fn lemma_prim_bits_lookup(u: nat, w: nat, j: nat)
    requires
        1 <= j,
    ensures
        lookup(prim_bits(u, w), atomic_val(j)) == if j <= w && bit(u, (j - 1) as nat) {
            Some(atomic_val(1))
        } else {
            None
        },
    decreases w,
{
    if w > 0 {
        let w1 = (w - 1) as nat;
        lemma_prim_bits_lookup(u, w1, j);
        lemma_atomic_injective(w, j);
        if bit(u, w1) {
            lemma_lookup_push(prim_bits(u, w1), (atomic_val(w), atomic_val(1)), atomic_val(j));
        }
    }
}

/// The low `n` bits of `u` are its low `n - 1` bits and bit `n - 1`.
pub proof fn lemma_mod_pow2_step(u: nat, n: nat)
    requires
        n >= 1,
    ensures
        u % pow2(n) == u % pow2((n - 1) as nat) + if bit(u, (n - 1) as nat) { pow2((n - 1) as nat) } else { 0 },
{
    let a = pow2((n - 1) as nat);
    lemma_pow2_pos((n - 1) as nat);
    lemma_pow2_unfold(n);
    let q = u / a;
    let r = u % a;
    let b = q % 2;
    assert(u == a * q + r) by (nonlinear_arith)
        requires
            a > 0,
            q == u / a,
            r == u % a,
    ;
    assert(q == 2 * (q / 2) + b);
    assert(u == (q / 2) * (2 * a) + (b * a + r)) by (nonlinear_arith)
        requires
            u == a * q + r,
            q == 2 * (q / 2) + b,
    ;
    assert(0 <= b * a + r < 2 * a) by (nonlinear_arith)
        requires
            0 <= b < 2,
            0 <= r < a,
    ;
    lemma_fundamental_div_mod_converse(u as int, (2 * a) as int, (q / 2) as int, (b * a + r) as int);
    assert(pow2(n) == 2 * a);
    assert(u % pow2(n) == b * a + r);
    assert(bit(u, (n - 1) as nat) == (b == 1));
    if b == 1 {
        assert(b * a == a) by (nonlinear_arith)
            requires
                b == 1,
        ;
    } else {
        assert(b == 0);
        assert(b * a == 0) by (nonlinear_arith)
            requires
                b == 0,
        ;
    }
}

/// Reading the bit keys of a number's list one by one gives its low bits and their count.
pub proof fn lemma_scan_prim(u: nat, w: nat, m: nat, n: nat)
    requires
        n <= w,
    ensures
        scan_bits(seq![(Val::Nil, atomic_val(m))] + prim_bits(u, w), n) == Some((u % pow2(n), prim_bits(u, n).len())),
    decreases n,
{
    let s = seq![(Val::Nil, atomic_val(m))] + prim_bits(u, w);
    if n == 0 {
        assert(pow2(0) == 1) by {
            vstd::arithmetic::power2::lemma2_to64();
        }
    } else {
        let n1 = (n - 1) as nat;
        lemma_scan_prim(u, w, m, n1);
        assert(s[0].0 != atomic_val(n));
        assert(s.drop_first() =~= prim_bits(u, w));
        lemma_prim_bits_lookup(u, w, n);
        assert(lookup(s, atomic_val(n)) == lookup(prim_bits(u, w), atomic_val(n)));
        lemma_mod_pow2_step(u, n);
    }
}

/// A number of 32 bits reads back as itself.
pub proof fn law_prim_round_trip(u: nat)
    requires
        u < pow2(32),
    ensures
        decode_prim(prim_val(u, 32, 32), 32) == Some(u),
{
    let s = seq![(Val::Nil, atomic_val(32))] + prim_bits(u, 32);
    lemma_scan_prim(u, 32, 32, 32);
    lemma_pow2_pos(32);
    lemma_small_mod(u, pow2(32));
    assert(lookup(s, Val::Nil) == Some(atomic_val(32)));
}

/// A number whose width is not 32 is written with a width marker that reading refuses.
pub proof fn law_prim_other_width_unread(u: nat, w: nat)
    requires
        w != 32,
    ensures
        decode_prim(prim_val(u, w, w), w) is None,
{
    let s = seq![(Val::Nil, atomic_val(w))] + prim_bits(u, w);
    assert(lookup(s, Val::Nil) == Some(atomic_val(w)));
    lemma_atomic_injective(w, 32);
}

/// A number's bit list is empty only when its low bits are all clear.
pub proof fn lemma_prim_bits_empty(u: nat, n: nat)
    requires
        prim_bits(u, n).len() == 0,
    ensures
        u % pow2(n) == 0,
    decreases n,
{
    if n == 0 {
        assert(pow2(0) == 1) by {
            vstd::arithmetic::power2::lemma2_to64();
        }
    } else {
        let n1 = (n - 1) as nat;
        if bit(u, n1) {
            assert(prim_bits(u, n).len() == prim_bits(u, n1).len() + 1);
        }
        lemma_prim_bits_empty(u, n1);
        lemma_mod_pow2_step(u, n);
    }
}

/// A number of 32 bits prints as a signed decimal: its digits when its top bit is
/// clear, else a minus sign and the digits of what it falls short of 2^32.
pub proof fn law_render_number(u: nat)
    requires
        u < pow2(32),
    ensures
        render(prim_val(u, 32, 32)) == if u < 0x8000_0000 {
            decimal(u)
        } else {
            "-"@ + decimal((0x1_0000_0000 - u) as nat)
        },
{
    law_prim_round_trip(u);
}

/// A run of letters and digits reaches the end of a word made only of them.
pub proof fn lemma_alnum_end_word(w: Seq<char>, p: nat)
    requires
        p <= w.len(),
        forall|i: int| 0 <= i < w.len() ==> is_alnum(#[trigger] w[i]),
    ensures
        alnum_end(w, p) == w.len(),
    decreases w.len() - p,
{
    if p < w.len() {
        lemma_alnum_end_word(w, p + 1);
    }
}

/// The body of a quoted word with no quote or backslash in it is the word itself.
pub proof fn lemma_string_body_plain(s: Seq<char>, w: Seq<char>, p: nat, acc: Seq<char>)
    requires
        s == seq!['"'] + w + seq!['"'],
        1 <= p <= w.len() + 1,
        forall|i: int| 0 <= i < w.len() ==> #[trigger] w[i] != '"' && w[i] != '\\',
        acc == w.subrange(0, p - 1),
    ensures
        p_string_body(s, p, Ok(acc)) == Some((Ok::<Seq<char>, crate::parse::BuildErr>(w), (w.len() + 2) as nat)),
    decreases s.len() - p,
{
    if p <= w.len() {
        assert(s[p as int] == w[p - 1]);
        assert(acc.push(w[p - 1]) =~= w.subrange(0, p as int));
        lemma_string_body_plain(s, w, p + 1, acc.push(w[p - 1]));
    } else {
        assert(s[p as int] == '"');
        assert(acc =~= w);
    }
}

/// A bare word that starts with a letter is read as the string of its characters,
/// exactly as the same word between double quotes is, in either encoding.
pub proof fn law_bare_word_is_string<E: Encoding>(w: Seq<char>)
    requires
        w.len() > 0,
        forall|i: int| 0 <= i < w.len() ==> is_alnum(#[trigger] w[i]),
        !is_digit(w[0]),
    ensures
        p_file::<E>(w) == Ok::<Val, crate::parse::SourceError>(str_enc::<E>(w)),
        p_file::<E>(seq!['"'] + w + seq!['"']) == Ok::<Val, crate::parse::SourceError>(str_enc::<E>(w)),
{
    let n = w.len();
    assert(!is_ws(w[0]));
    assert(skip_ws(w, 0) == 0);
    assert(skip_ws(w, n) == n);
    if starts_lines(w, 0) {
        assert(w.subrange(0, 6)[5] == '!');
        assert(is_alnum(w[5]));
    }
    assert(digits_end(w, 0) == 0);
    assert(p_number::<E>(w, 0) is None);
    lemma_alnum_end_word(w, 0);
    assert(w.subrange(0, n as int) =~= w);
    assert(p_word::<E>(w, 0) == Some((Ok::<Val, crate::parse::BuildErr>(str_enc::<E>(w)), n)));
    assert(p_value::<E>(w, 0) == p_word::<E>(w, 0));

    let s = seq!['"'] + w + seq!['"'];
    assert(s[0] == '"');
    assert(skip_ws(s, 0) == 0);
    assert(skip_ws(s, n + 2) == n + 2);
    assert(!starts_lines(s, 0)) by {
        if starts_lines(s, 0) {
            assert(s.subrange(0, 6)[0] == 'l');
        }
    }
    assert(digits_end(s, 0) == 0);
    assert(p_number::<E>(s, 0) is None);
    assert forall|i: int| 0 <= i < w.len() implies #[trigger] w[i] != '"' && w[i] != '\\' by {
        assert(is_alnum(w[i]));
    }
    assert(w.subrange(0, 0) =~= Seq::<char>::empty());
    lemma_string_body_plain(s, w, 1, Seq::empty());
    assert(p_value::<E>(s, 0) == p_string_lit::<E>(s, 0));
}

/// Whether no map inside a value holds the empty value.
pub open spec fn no_empty_values(v: Val) -> bool
    decreases v,
{
    match v {
        Val::Nil => true,
        Val::Node(s) => forall|i: int| 0 <= i < s.len() ==> {
            &&& #[trigger] s[i].1 != Val::Nil
            &&& no_empty_values(s[i].1)
        },
    }
}

/// The entries kept by their flags are exactly the flagged ones.
proof fn lemma_keep_by_flags<A>(s: Seq<A>, keep: Seq<bool>, i: int)
    requires
        keep.len() >= s.len(),
        0 <= i < keep_by(s, keep).len(),
    ensures
        exists|j: int| 0 <= j < s.len() && keep[j] && keep_by(s, keep)[i] == #[trigger] s[j],
    decreases s.len(),
{
    if s.len() > 0 {
        let t = keep_by(s.drop_last(), keep);
        if keep[s.len() - 1] && i == t.len() {
            assert(keep_by(s, keep)[i] == s[s.len() - 1]);
        } else {
            lemma_keep_by_flags(s.drop_last(), keep, i);
            let j = choose|j: int| 0 <= j < s.drop_last().len() && keep[j] && t[i] == #[trigger] s.drop_last()[j];
            assert(s.drop_last()[j] == s[j]);
        }
    }
}

/// Removing the empty values leaves none at any depth.
pub proof fn law_strip_leaves_no_empty_values(v: Val)
    ensures
        no_empty_values(strip_self(v)),
    decreases v,
{
    match v {
        Val::Nil => {},
        Val::Node(s) => {
            let k = keep_by(s, nonempty_flags(s));
            let t = strip_self(v)->Node_0;
            assert forall|i: int| 0 <= i < t.len() implies {
                &&& #[trigger] t[i].1 != Val::Nil
                &&& no_empty_values(t[i].1)
            } by {
                lemma_keep_by_flags(s, nonempty_flags(s), i);
                let j = choose|j: int| 0 <= j < s.len() && nonempty_flags(s)[j] && k[i] == #[trigger] s[j];
                assert(decreases_to!(v => s[j].1));
                law_strip_leaves_no_empty_values(s[j].1);
                assert(s[j].1 != Val::Nil);
                assert(t[i].1 == strip_self(k[i].1));
            }
        },
    }
}

/// In the list-kind interpreter, a write of a non-empty value under `.var.` fires
/// nothing, and reading the path back gives the value without its empty entries.
pub proof fn law_var_write_reads_back_stripped(root: Val, path: Val, val: Val)
    requires
        marked_walk(path) is Ok,
        marked_walk(path)->Ok_0.len() > 0,
        crate::revision::string_of(marked_walk(path)->Ok_0[0]) == Ok::<Option<Seq<char>>, crate::revision::HaltV>(Some(name_var())),
        val != Val::Nil,
    ensures
        execute_sem(root, path, val) matches Ok((r2, res)) && {
            &&& res is Ok
            &&& walk_val(r2, marked_walk(path)->Ok_0) == strip_self(val)
        },
{
    let comps = marked_walk(path)->Ok_0;
    assert(name_var()[0] != name_sys()[0]);
    assert(name_var() != name_sys());
    assert(path_check(comps) is None);
    assert(fires(comps) == Ok::<bool, crate::revision::HaltV>(false));
    law_write_then_walk(root, comps, strip_self(val));
}

/// A write whose path has no components stops the run.
pub proof fn law_empty_path_stops(root: Val, path: Val, val: Val, fuel: nat)
    requires
        path_items(path).len() == 0,
    ensures
        assign_sem(root, path, val, fuel) == Step::Stop(AbortV::CannotReplaceRoot),
{
}

/// A write whose first component is a string other than `ops` and `var` stops the run.
pub proof fn law_forbidden_namespace_stops(root: Val, path: Val, val: Val, fuel: nat, f: Seq<char>)
    requires
        path_items(path).len() > 0,
        string_of(path_items(path)[0]) == Some(f),
        f != name_ops(),
        f != name_var(),
    ensures
        assign_sem(root, path, val, fuel) == Step::Stop(AbortV::ForbiddenNamespace(f)),
{
}

/// A write under `.ops.<name>.` where no operation is registered as `name` stops the run.
pub proof fn law_unknown_op_stops(root: Val, path: Val, val: Val, fuel: nat, n: Seq<char>)
    requires
        path_items(path).len() >= 2,
        string_of(path_items(path)[0]) == Some(name_ops()),
        string_of(path_items(path)[1]) == Some(n),
        op_named(n) is None,
    ensures
        assign_sem(root, path, val, fuel) == Step::Stop(AbortV::UnknownOp(n)),
{
}

/// A side of a statement with no depth under the unary one is read with depth zero.
pub proof fn law_missing_depth_is_eager(m: Seq<(Val, Val)>)
    requires
        lookup(m, atomic_val(1)) is None,
    ensures
        extract(Val::Node(m)) == Some::<(Val, int)>((
            match lookup(m, Val::Nil) {
                Some(x) => x,
                None => Val::Nil,
            },
            0,
        )),
{
}

/// The value of the last pair for key `k`.
pub open spec fn last_for(p: Seq<(Val, Val)>, k: Val) -> Option<Val>
    decreases p.len(),
{
    if p.len() == 0 {
        None
    } else if p.last().0 == k {
        Some(p.last().1)
    } else {
        last_for(p.drop_last(), k)
    }
}

/// Building a map from pairs keeps, for each key, the value of its last pair.
pub proof fn lemma_collect_lookup(p: Seq<(Val, Val)>, k: Val)
    ensures
        lookup(collect_entries(p), k) == last_for(p, k),
    decreases p.len(),
{
    if p.len() > 0 {
        lemma_collect_sorted(p.drop_last());
        lemma_set_entry_lookup(collect_entries(p.drop_last()), p.last().0, p.last().1, k);
        lemma_collect_lookup(p.drop_last(), k);
    }
}

/// The two items of a system list of two items.
pub proof fn lemma_sys_pair(a: Val, b: Val)
    ensures
        sys_val(seq![a, b]) matches Val::Node(m) && lookup(m, Val::Nil) == Some(a) && lookup(m, atomic_val(1)) == Some(b),
{
    let p = sys_list_pairs(seq![a, b]);
    assert(p[0] == (Val::Nil, a));
    assert(p[1] == (atomic_val(1), b));
    assert(p.drop_last() =~= seq![(Val::Nil, a)]);
    assert(seq![(Val::Nil, a)].drop_last().len() == 0);
    lemma_atomic_injective(0, 1);
    assert(atomic_val(0) == Val::Nil);
    assert(last_for(p.drop_last(), Val::Nil) == Some(a));
    assert(last_for(p, Val::Nil) == Some(a));
    assert(last_for(p, atomic_val(1)) == Some(b));
    lemma_collect_lookup(p, Val::Nil);
    lemma_collect_lookup(p, atomic_val(1));
}

/// A program of one assignment under `.var.` runs without reports, and reading
/// its left side back gives its right side: as written for `=`, and the value
/// it names from the root for `<-`.
pub proof fn law_assignment_program_reads_back(root: Val, path: Val, v: Val, rd: nat, fuel: nat)
    requires
        path_items(path).len() > 0,
        string_of(path_items(path)[0]) == Some(name_var()),
        rd <= 1,
        deref_val(root, v, rd) is Ok,
        deref_val(root, v, rd)->Ok_0 != Val::Nil,
    ensures
        exec_sem(root, sys_val(seq![stmt_val(path, 0, v, rd)]), fuel) matches Step::Done(r2, d, res) && {
            &&& res is Ok
            &&& d.len() == 0
            &&& walk_val(r2, path_items(path)) == deref_val(root, v, rd)->Ok_0
        },
{
    let lp = sys_val(seq![path, atomic_val(0)]);
    let rp = sys_val(seq![v, atomic_val(rd)]);
    let stmt = stmt_val(path, 0, v, rd);
    lemma_sys_pair(path, atomic_val(0));
    lemma_sys_pair(v, atomic_val(rd));
    lemma_sys_pair(lp, rp);
    lemma_atomic_of(atomic_val(0), 0);
    lemma_atomic_of(atomic_val(rd), rd);
    assert(extract(lp) == Some::<(Val, int)>((path, 0)));
    assert(extract(rp) == Some::<(Val, int)>((v, rd as int)));
    assert(times(0) == 0);
    assert(times(rd as int) == rd);
    assert(deref_val(root, path, 0) == Ok::<Val, InterpError>(path));
    let val = deref_val(root, v, rd)->Ok_0;
    law_var_write_reads_back(root, path, val, fuel);
    assert(do_set_sem(root, lp, rp, fuel) == assign_sem(root, path, val, fuel));
    let prog = sys_val(seq![stmt]);
    let ps = sys_list_pairs(seq![stmt]);
    assert(ps[0] == (Val::Nil, stmt));
    lemma_collect_lookup(ps, Val::Nil);
    lemma_collect_lookup(ps, atomic_val(1));
    assert(ps.drop_last().len() == 0);
    lemma_atomic_injective(0, 1);
    assert(atomic_val(0) == Val::Nil);
    assert(last_for(ps.drop_last(), atomic_val(1)) is None);
    assert(last_for(ps, atomic_val(1)) is None);
    assert(last_for(ps, Val::Nil) == Some(stmt));
    match assign_sem(root, path, val, fuel) {
        Step::Done(r2, d, res) => {
            assert(stmt_sem(root, stmt, fuel) == Step::Done(r2, d, Ok::<(), InterpError>(())));
            let s = collect_entries(ps);
            assert(exec_from(r2, s, 1, fuel) == Step::Done(r2, Seq::empty(), Ok::<(), InterpError>(())));
        },
        Step::Stop(_) => {},
    }
}

/// Different 32-bit numbers are different values.
pub proof fn lemma_int_val_injective(i: nat, j: nat)
    requires
        i < 0x1_0000_0000,
        j < 0x1_0000_0000,
    ensures
        (int_val(i) == int_val(j)) == (i == j),
{
    vstd::arithmetic::power2::lemma2_to64();
    law_prim_round_trip(i);
    law_prim_round_trip(j);
}

/// In a list, the position `i` holds item `i`, and positions past the end hold nothing.
pub proof fn lemma_index_lookup(items: Seq<Val>, i: nat)
    requires
        items.len() <= 0x1_0000_0000,
        i < 0x1_0000_0000,
    ensures
        lookup(collect_entries(index_pairs(items)), int_val(i)) == if i < items.len() {
            Some(items[i as int])
        } else {
            None
        },
    decreases items.len(),
{
    let p = index_pairs(items);
    if items.len() > 0 {
        let n1 = (items.len() - 1) as nat;
        let init = items.drop_last();
        assert(p.drop_last() =~= index_pairs(init));
        assert(p.last() == (int_val(n1), items[n1 as int]));
        lemma_collect_sorted(p.drop_last());
        lemma_set_entry_lookup(collect_entries(p.drop_last()), int_val(n1), items[n1 as int], int_val(i));
        lemma_int_val_injective(i, n1);
        lemma_index_lookup(init, i);
    }
}

/// Reading a list as a path from position `i` gives its items from `i` on.
pub proof fn lemma_index_items(items: Seq<Val>, i: nat)
    requires
        items.len() <= 0x1_0000_0000,
        i <= items.len(),
    ensures
        items_from(collect_entries(index_pairs(items)), i) == items.skip(i as int),
    decreases items.len() - i,
{
    let s = collect_entries(index_pairs(items));
    if i < items.len() {
        lemma_index_lookup(items, i);
        lemma_index_items(items, i + 1);
        assert(items.skip(i as int) =~= seq![items[i as int]] + items.skip((i + 1) as int));
    } else if i < 0x1_0000_0000 {
        lemma_index_lookup(items, i);
        assert(items.skip(i as int) =~= Seq::<Val>::empty());
    } else {
        assert(items.skip(i as int) =~= Seq::<Val>::empty());
    }
}

/// A list read as a path gives back its items: the dot path `.a.b.` and the array
/// `[a, b]` name the components `a` and `b`.
pub proof fn law_path_reads_back(items: Seq<Val>)
    requires
        items.len() <= 0x1_0000_0000,
    ensures
        path_items(index_val(items)) == items,
{
    lemma_index_items(items, 0);
    assert(items.skip(0) =~= items);
}

/// Storing under a key not yet present adds one entry.
pub proof fn lemma_set_entry_new_len(s: Seq<(Val, Val)>, k: Val, v: Val)
    requires
        lookup(s, k) is None,
    ensures
        set_entry(s, k, v).len() == s.len() + 1,
    decreases s.len(),
{
    if s.len() > 0 {
        lemma_ord_equal(s[0].0, k);
        if ord(s[0].0, k) == Order::Less {
            lemma_set_entry_new_len(s.drop_first(), k, v);
        }
    }
}

/// A list has one entry per item.
pub proof fn lemma_index_len(items: Seq<Val>)
    requires
        items.len() <= 0x1_0000_0000,
    ensures
        collect_entries(index_pairs(items)).len() == items.len(),
    decreases items.len(),
{
    if items.len() > 0 {
        let p = index_pairs(items);
        let n1 = (items.len() - 1) as nat;
        let init = items.drop_last();
        assert(p.drop_last() =~= index_pairs(init));
        lemma_index_len(init);
        lemma_index_lookup(init, n1);
        lemma_set_entry_new_len(collect_entries(p.drop_last()), int_val(n1), items[n1 as int]);
    }
}

/// Reading the first `n` characters of a string gives them back.
pub proof fn lemma_chars_from_str(cs: Seq<char>, n: nat)
    requires
        cs.len() <= 0x1_0000_0000,
        n <= cs.len(),
    ensures
        chars_from(collect_entries(index_pairs(char_vals(cs))), n) == Some(cs.take(n as int)),
    decreases n,
{
    if n > 0 {
        let n1 = (n - 1) as nat;
        lemma_chars_from_str(cs, n1);
        lemma_index_lookup(char_vals(cs), n1);
        let c = cs[n1 as int];
        let u = c as u32;
        vstd::arithmetic::power2::lemma2_to64();
        law_prim_round_trip(u as nat);
        vstd::utf8::char_u32_cast(c, u);
        assert(valid_code(u as nat));
        assert(cs.take(n1 as int).push(c) =~= cs.take(n as int));
    }
}

/// Writing a string and reading it back gives the same characters.
pub proof fn law_string_round_trip(cs: Seq<char>)
    requires
        cs.len() <= 0x1_0000_0000,
    ensures
        string_of(str_val(cs)) == Some(cs),
{
    lemma_index_len(char_vals(cs));
    lemma_chars_from_str(cs, cs.len());
    assert(cs.take(cs.len() as int) =~= cs);
}

/// Reading a unary number from the level `i` counts its levels on from `i`.
pub proof fn lemma_atomic_walk_of(m: nat, i: nat)
    requires
        m >= 1,
        i >= 1,
        i + m - 1 <= u32::MAX,
    ensures
        atomic_walk(atomic_val(m), i) == Ok::<Result<nat, AtomicError>, HaltV>(Ok((i + m - 1) as nat)),
    decreases m,
{
    if m >= 2 {
        lemma_atomic_walk_of((m - 1) as nat, i + 1);
        assert(atomic_val((m - 1) as nat) != Val::Nil);
    }
}

/// A value read as the number `r` from the level `i` is the unary number `r - i + 1`.
pub proof fn lemma_atomic_walk_is(v: Val, i: nat, r: nat)
    requires
        v is Node,
        i >= 1,
        atomic_walk(v, i) == Ok::<Result<nat, AtomicError>, HaltV>(Ok(r)),
    ensures
        r >= i,
        v == atomic_val((r - i + 1) as nat),
    decreases v,
{
    match v {
        Val::Node(s) => {
            if s.len() == 0 {
                assert(s =~= Seq::<(Val, Val)>::empty());
            } else {
                let c = s[0].1;
                assert(decreases_to!(v => c));
                lemma_atomic_walk_is(c, i + 1, r);
                assert(s =~= seq![(Val::Nil, c)]);
            }
        },
        Val::Nil => {},
    }
}

/// Reading a value as a unary number gives back exactly the unary numbers: the
/// number `n` reads as `n`, and whatever reads as `n` is the number `n`.
pub proof fn law_atomic_try_round_trip(v: Val, n: nat)
    requires
        n <= u32::MAX,
    ensures
        atomic_try(atomic_val(n)) == Ok::<Result<nat, AtomicError>, HaltV>(Ok(n)),
        atomic_try(v) == Ok::<Result<nat, AtomicError>, HaltV>(Ok(n)) ==> v == atomic_val(n),
{
    if n >= 1 {
        lemma_atomic_walk_of(n, 1);
    }
    if atomic_try(v) == Ok::<Result<nat, AtomicError>, HaltV>(Ok(n)) {
        if v is Node {
            lemma_atomic_walk_is(v, 1, n);
        }
    }
}

/// In a system list, the unary key `i` holds item `i`, and keys past the end hold nothing.
pub proof fn lemma_sys_lookup(items: Seq<Val>, i: nat)
    requires
        items.len() <= 0x1_0000_0000,
        i < 0x1_0000_0000,
    ensures
        lookup(collect_entries(sys_list_pairs(items)), atomic_val(i)) == if i < items.len() {
            Some(items[i as int])
        } else {
            None
        },
    decreases items.len(),
{
    let p = sys_list_pairs(items);
    if items.len() > 0 {
        let n1 = (items.len() - 1) as nat;
        let init = items.drop_last();
        assert(p.drop_last() =~= sys_list_pairs(init));
        assert(p.last() == (atomic_val(n1), items[n1 as int]));
        lemma_collect_sorted(p.drop_last());
        lemma_set_entry_lookup(collect_entries(p.drop_last()), atomic_val(n1), items[n1 as int], atomic_val(i));
        lemma_atomic_injective(i, n1);
        lemma_sys_lookup(init, i);
    }
}

/// Walking a system list from the unary key `i` gives its items from `i` on.
pub proof fn lemma_sys_rest(items: Seq<Val>, i: nat)
    requires
        items.len() < u32::MAX,
        i <= items.len(),
    ensures
        sys_rest(collect_entries(sys_list_pairs(items)), i) == (items.skip(i as int), None::<HaltV>),
    decreases items.len() - i,
{
    lemma_sys_lookup(items, i);
    if i < items.len() {
        lemma_sys_rest(items, i + 1);
        assert(items.skip(i as int) =~= seq![items[i as int]] + items.skip((i + 1) as int));
    } else {
        assert(items.skip(i as int) =~= Seq::<Val>::empty());
    }
}

/// Walking a system list gives back its items in order, and then the walk ends
/// without stopping the run.
pub proof fn law_sys_list_walk(items: Seq<Val>)
    requires
        items.len() < u32::MAX,
    ensures
        sys_rest(collect_entries(sys_list_pairs(items)), 0) == (items, None::<HaltV>),
{
    lemma_sys_rest(items, 0);
    assert(items.skip(0) =~= items);
}

/// Different numbers of one type are written as different values.
pub proof fn law_from_prim_injective<T: Primitive>(x: T, y: T)
    ensures
        (prim_val(x.unsigned(), T::width(), T::width()) == prim_val(y.unsigned(), T::width(), T::width()))
            == (x == y),
{
    let w = T::width();
    x.unsigned_bound();
    y.unsigned_bound();
    x.unsigned_injective(y);
    if prim_val(x.unsigned(), w, w) == prim_val(y.unsigned(), w, w) {
        lemma_scan_prim(x.unsigned(), w, w, w);
        lemma_scan_prim(y.unsigned(), w, w, w);
        assert(seq![(Val::Nil, atomic_val(w))] + prim_bits(x.unsigned(), w) =~= seq![(Val::Nil, atomic_val(w))] + prim_bits(y.unsigned(), w)) by {
            assert(prim_val(x.unsigned(), w, w)->Node_0 == prim_val(y.unsigned(), w, w)->Node_0);
        }
        lemma_pow2_pos(w);
        lemma_small_mod(x.unsigned(), pow2(w));
        lemma_small_mod(y.unsigned(), pow2(w));
    }
}

/// Keeping every element keeps the list.
pub proof fn lemma_keep_all<A>(s: Seq<A>, keep: Seq<bool>)
    requires
        keep.len() >= s.len(),
        forall|j: int| 0 <= j < s.len() ==> keep[j],
    ensures
        keep_by(s, keep) == s,
    decreases s.len(),
{
    if s.len() > 0 {
        lemma_keep_all(s.drop_last(), keep);
        assert(s.drop_last().push(s.last()) =~= s);
    }
}

/// A value with no empty values at any depth is left as it is by stripping them.
pub proof fn lemma_strip_no_empty(v: Val)
    requires
        no_empty_values(v),
    ensures
        strip_self(v) == v,
    decreases v,
{
    match v {
        Val::Nil => {},
        Val::Node(s) => {
            let flags = nonempty_flags(s);
            lemma_keep_all(s, flags);
            let t = strip_self(v)->Node_0;
            assert forall|i: int| 0 <= i < s.len() implies #[trigger] t[i] == s[i] by {
                assert(decreases_to!(v => s[i].1));
                lemma_strip_no_empty(s[i].1);
            }
            assert(t =~= s);
        },
    }
}

/// Stripping empty values twice is stripping them once.
pub proof fn law_strip_idempotent(v: Val)
    ensures
        strip_self(strip_self(v)) == strip_self(v),
{
    law_strip_leaves_no_empty_values(v);
    lemma_strip_no_empty(strip_self(v));
}

/// Whether every entry of a map holds a value other than the empty one, with no
/// empty values inside it.
pub open spec fn entries_nonempty(s: Seq<(Val, Val)>) -> bool {
    forall|i: int| 0 <= i < s.len() ==> {
        &&& #[trigger] s[i].1 != Val::Nil
        &&& no_empty_values(s[i].1)
    }
}

/// Storing a value that is not empty, and holds no empty values, keeps a map free of them.
pub proof fn lemma_set_entry_nonempty(s: Seq<(Val, Val)>, k: Val, v: Val)
    requires
        entries_nonempty(s),
        v != Val::Nil,
        no_empty_values(v),
    ensures
        entries_nonempty(set_entry(s, k, v)),
    decreases s.len(),
{
    let t = set_entry(s, k, v);
    if s.len() > 0 {
        match ord(s[0].0, k) {
            Order::Equal => {
                assert forall|i: int| 0 <= i < t.len() implies #[trigger] t[i].1 != Val::Nil && no_empty_values(t[i].1) by {
                    if i > 0 {
                        assert(t[i] == s[i]);
                    }
                }
            },
            Order::Greater => {
                assert forall|i: int| 0 <= i < t.len() implies #[trigger] t[i].1 != Val::Nil && no_empty_values(t[i].1) by {
                    if i > 0 {
                        assert(t[i] == s[i - 1]);
                    }
                }
            },
            Order::Less => {
                let r = s.drop_first();
                assert(entries_nonempty(r)) by {
                    assert forall|i: int| 0 <= i < r.len() implies #[trigger] r[i].1 != Val::Nil && no_empty_values(r[i].1) by {
                        assert(r[i] == s[i + 1]);
                    }
                }
                lemma_set_entry_nonempty(r, k, v);
                let u = set_entry(r, k, v);
                assert forall|i: int| 0 <= i < t.len() implies #[trigger] t[i].1 != Val::Nil && no_empty_values(t[i].1) by {
                    if i > 0 {
                        assert(t[i] == u[i - 1]);
                    }
                }
            },
        }
    }
}

/// Writing a value that is not empty, and holds no empty values, keeps a value free of them.
pub proof fn lemma_write_nonempty(root: Val, comps: Seq<Val>, val: Val)
    requires
        no_empty_values(root),
        no_empty_values(val),
        val != Val::Nil,
    ensures
        no_empty_values(write_val(root, comps, val)),
        write_val(root, comps, val) != Val::Nil,
    decreases comps.len(),
{
    if comps.len() > 0 {
        let s = match root {
            Val::Node(s) => if decode_prim(root, 32) is Some { Seq::empty() } else { s },
            Val::Nil => Seq::empty(),
        };
        assert(entries_nonempty(s));
        let k = comps[0];
        let t = with_slot(s, k);
        if lookup(s, k) is None {
            lemma_set_entry_nonempty(s, k, Val::Node(Seq::empty()));
        }
        assert(entries_nonempty(t));
        lemma_with_slot(s, k);
        let i = find(t, k)->0;
        lemma_write_nonempty(t[i].1, comps.drop_first(), val);
        let x = write_val(t[i].1, comps.drop_first(), val);
        let u = t.update(i, (k, x));
        assert forall|j: int| 0 <= j < u.len() implies #[trigger] u[j].1 != Val::Nil && no_empty_values(u[j].1) by {
            if j != i {
                assert(u[j] == t[j]);
            }
        }
    }
}

/// Removing what a path names keeps a value free of empty values.
pub proof fn lemma_remove_nonempty(root: Val, comps: Seq<Val>)
    requires
        no_empty_values(root),
    ensures
        no_empty_values(remove_val(root, comps)),
        root != Val::Nil ==> remove_val(root, comps) != Val::Nil,
    decreases comps.len(),
{
    if comps.len() > 0 {
        match root {
            Val::Nil => {},
            Val::Node(s) => {
                if comps.len() == 1 {
                    lemma_find(s, comps[0]);
                    match find(s, comps[0]) {
                        Some(i) => {
                            let u = s.remove(i);
                            assert forall|j: int| 0 <= j < u.len() implies #[trigger] u[j].1 != Val::Nil && no_empty_values(u[j].1) by {
                                if j < i {
                                    assert(u[j] == s[j]);
                                } else {
                                    assert(u[j] == s[j + 1]);
                                }
                            }
                        },
                        None => {},
                    }
                } else {
                    match find(s, comps[0]) {
                        None => {},
                        Some(i) => {
                            lemma_find(s, comps[0]);
                            assert(decreases_to!(root => s[i].1));
                            lemma_remove_nonempty(s[i].1, comps.drop_first());
                            let u = s.update(i, (s[i].0, remove_val(s[i].1, comps.drop_first())));
                            assert forall|j: int| 0 <= j < u.len() implies #[trigger] u[j].1 != Val::Nil && no_empty_values(u[j].1) by {
                                if j != i {
                                    assert(u[j] == s[j]);
                                }
                            }
                        },
                    }
                }
            },
        }
    }
}

/// In the list-kind interpreter, a write that succeeds leaves no empty values
/// stored in a root that held none: the value written is stripped of them, and a
/// write of the empty value removes an entry instead.
pub proof fn law_write_leaves_no_empty_values(root: Val, path: Val, val: Val)
    requires
        no_empty_values(root),
    ensures
        execute_sem(root, path, val) matches Ok((r2, _)) ==> no_empty_values(r2),
{
    match marked_walk(path) {
        Err(_) => {},
        Ok(comps) => {
            if val == Val::Nil {
                lemma_remove_nonempty(root, comps);
            } else {
                law_strip_leaves_no_empty_values(val);
                lemma_write_nonempty(root, comps, strip_self(val));
            }
        },
    }
}

/// The bit keys `1..=n` that a map holds.
pub open spec fn bit_keys(s: Seq<(Val, Val)>, n: nat) -> Set<Val>
    decreases n,
{
    if n == 0 {
        Set::empty()
    } else if lookup(s, atomic_val(n)) is Some {
        bit_keys(s, (n - 1) as nat).insert(atomic_val(n))
    } else {
        bit_keys(s, (n - 1) as nat)
    }
}

/// The bit keys a map holds are as many as reading its bits counts.
pub proof fn lemma_bit_keys(s: Seq<(Val, Val)>, n: nat)
    ensures
        bit_keys(s, n).finite(),
        scan_bits(s, n) matches Some((_, c)) ==> bit_keys(s, n).len() == c,
        forall|x: Val| #[trigger] bit_keys(s, n).contains(x) ==> {
            &&& lookup(s, x) is Some
            &&& x != Val::Nil
            &&& exists|j: nat| 1 <= j <= n && x == #[trigger] atomic_val(j)
        },
    decreases n,
{
    if n > 0 {
        let n1 = (n - 1) as nat;
        lemma_bit_keys(s, n1);
        if lookup(s, atomic_val(n)) is Some {
            if bit_keys(s, n1).contains(atomic_val(n)) {
                let j = choose|j: nat| 1 <= j <= n1 && atomic_val(n) == #[trigger] atomic_val(j);
                lemma_atomic_injective(n, j);
            }
            assert(atomic_val(n) != Val::Nil);
            assert forall|x: Val| #[trigger] bit_keys(s, n).contains(x) implies {
                &&& lookup(s, x) is Some
                &&& x != Val::Nil
                &&& exists|j: nat| 1 <= j <= n && x == #[trigger] atomic_val(j)
            } by {
                if x == atomic_val(n) {
                    assert(1 <= n <= n && x == atomic_val(n));
                } else {
                    assert(bit_keys(s, n1).contains(x));
                    let j = choose|j: nat| 1 <= j <= n1 && x == #[trigger] atomic_val(j);
                    assert(1 <= j <= n && x == atomic_val(j));
                }
            }
        } else {
            assert forall|x: Val| #[trigger] bit_keys(s, n).contains(x) implies {
                &&& lookup(s, x) is Some
                &&& x != Val::Nil
                &&& exists|j: nat| 1 <= j <= n && x == #[trigger] atomic_val(j)
            } by {
                assert(bit_keys(s, n1).contains(x));
                let j = choose|j: nat| 1 <= j <= n1 && x == #[trigger] atomic_val(j);
                assert(1 <= j <= n && x == atomic_val(j));
            }
        }
    }
}

/// A map in key order that holds a key which is neither the empty value nor a
/// bit key is not a number.
pub proof fn lemma_not_number(s: Seq<(Val, Val)>, k: Val)
    requires
        sorted(s),
        lookup(s, k) is Some,
        k != Val::Nil,
        forall|j: nat| 1 <= j <= 32 ==> k != #[trigger] atomic_val(j),
    ensures
        decode_prim(Val::Node(s), 32) is None,
{
    if decode_prim(Val::Node(s), 32) is Some {
        lemma_bit_keys(s, 32);
        let c = scan_bits(s, 32)->Some_0.1;
        let b = bit_keys(s, 32);
        let keys = Seq::new(s.len(), |i: int| s[i].0);
        assert forall|i: int, j: int| 0 <= i < keys.len() && 0 <= j < keys.len() && i != j implies keys[i] != keys[j] by {
            if keys[i] == keys[j] {
                lemma_sorted_unique(s, i, j);
            }
        }
        assert(keys.no_duplicates());
        keys.unique_seq_to_set();
        assert(!b.contains(Val::Nil));
        assert(!b.contains(k)) by {
            if b.contains(k) {
                let j = choose|j: nat| 1 <= j <= 32 && k == #[trigger] atomic_val(j);
            }
        }
        let b1 = b.insert(Val::Nil);
        let e = b1.insert(k);
        assert(b1.len() == c + 1);
        assert(!b1.contains(k));
        assert(e.len() == c + 2);
        assert forall|x: Val| #[trigger] e.contains(x) implies keys.to_set().contains(x) by {
            assert(lookup(s, x) is Some);
            lemma_find(s, x);
            let i = find(s, x)->0;
            assert(keys[i] == x);
        }
        assert(e.subset_of(keys.to_set()));
        vstd::set_lib::lemma_len_subset(e, keys.to_set());
    }
}

/// A name of at least two characters, written as a string, is neither the empty
/// value nor a unary number.
pub proof fn lemma_name_not_atomic(name: Seq<char>)
    requires
        2 <= name.len() <= 0x1_0000_0000,
    ensures
        str_val(name) != Val::Nil,
        forall|j: nat| #[trigger] atomic_val(j) != str_val(name),
{
    lemma_index_len(char_vals(name));
    assert forall|j: nat| #[trigger] atomic_val(j) != str_val(name) by {
        if j >= 2 {
            assert(atomic_val(j)->Node_0.len() == 1);
        }
    }
}

/// The entries a write starts from at the top of `node`: none for the empty value
/// or a number.
pub open spec fn top_entries(node: Val) -> Seq<(Val, Val)> {
    match node {
        Val::Node(s) => if decode_prim(node, 32) is Some { Seq::empty() } else { s },
        Val::Nil => Seq::empty(),
    }
}

/// What a write finds under `k` in the entries `s`: the value there, or an empty map.
pub open spec fn slot_of(s: Seq<(Val, Val)>, k: Val) -> Val {
    match lookup(s, k) {
        Some(x) => x,
        None => Val::Node(Seq::empty()),
    }
}

/// Replacing the entry of key `k` leaves what other keys read.
pub proof fn lemma_lookup_update_other(t: Seq<(Val, Val)>, i: int, k: Val, x: Val, q: Val)
    requires
        find(t, k) == Some(i),
        q != k,
    ensures
        lookup(t.update(i, (k, x)), q) == lookup(t, q),
    decreases t.len(),
{
    lemma_find(t, k);
    if t.len() > 0 && i > 0 {
        let u = t.update(i, (k, x));
        assert(u[0] == t[0]);
        assert(t[0].0 != k);
        assert(find(t.drop_first(), k) == Some(i - 1));
        assert(u.drop_first() =~= t.drop_first().update(i - 1, (k, x)));
        lemma_lookup_update_other(t.drop_first(), i - 1, k, x, q);
    } else if t.len() > 0 {
        let u = t.update(i, (k, x));
        assert(u.drop_first() =~= t.drop_first());
    }
}

/// A write at a path of one or more components makes a map in key order whose
/// first component holds what was written below it, and whose other keys read
/// as before.
pub proof fn lemma_write_top(node: Val, comps: Seq<Val>, val: Val)
    requires
        sorted(top_entries(node)),
        comps.len() > 0,
    ensures
        write_val(node, comps, val) is Node,
        sorted(write_val(node, comps, val)->Node_0),
        lookup(write_val(node, comps, val)->Node_0, comps[0])
            == Some(write_val(slot_of(top_entries(node), comps[0]), comps.drop_first(), val)),
        forall|q: Val| q != comps[0] ==> #[trigger] lookup(write_val(node, comps, val)->Node_0, q)
            == lookup(top_entries(node), q),
{
    let s = top_entries(node);
    let k = comps[0];
    let t = with_slot(s, k);
    lemma_with_slot(s, k);
    let i = find(t, k)->0;
    lemma_find(t, k);
    if lookup(s, k) is None {
        crate::order::lemma_set_entry_sorted(s, k, Val::Node(Seq::empty()));
        crate::order::lemma_set_entry_get(s, k, Val::Node(Seq::empty()));
    }
    assert(t[i].1 == slot_of(s, k));
    let x = write_val(t[i].1, comps.drop_first(), val);
    let u = t.update(i, (k, x));
    assert(write_val(node, comps, val) == Val::Node(u));
    assert forall|a: int, b: int| 0 <= a < b < u.len() implies ord(#[trigger] u[a].0, #[trigger] u[b].0) == Order::Less by {
        assert(u[a].0 == t[a].0);
        assert(u[b].0 == t[b].0);
    }
    lemma_lookup_update(t, i, k, x);
    assert forall|q: Val| q != k implies #[trigger] lookup(u, q) == lookup(s, q) by {
        lemma_lookup_update_other(t, i, k, x, q);
        if lookup(s, k) is None {
            lemma_set_entry_lookup(s, k, Val::Node(Seq::empty()), q);
        }
    }
}

/// A value in a map whose maps all keep key order keeps key order too.
pub proof fn lemma_wf_lookup(s: Seq<(Val, Val)>, k: Val)
    requires
        wf(Val::Node(s)),
    ensures
        wf(slot_of(s, k)),
{
    lemma_find(s, k);
}

/// Whether each component of `comps` is a key of the map reached so far, a map
/// that is not a number.
pub open spec fn settled(n: Val, comps: Seq<Val>) -> bool
    decreases comps.len(),
{
    if comps.len() == 0 {
        true
    } else {
        match n {
            Val::Nil => false,
            Val::Node(s) => {
                &&& decode_prim(n, 32) is None
                &&& lookup(s, comps[0]) is Some
                &&& settled(lookup(s, comps[0])->0, comps.drop_first())
            },
        }
    }
}

/// Writing at a path, through maps that hold its components, the value already
/// found there changes nothing.
pub proof fn lemma_write_same(n: Val, comps: Seq<Val>, v: Val)
    requires
        settled(n, comps),
        walk_val(n, comps) == v,
    ensures
        write_val(n, comps, v) == n,
    decreases comps.len(),
{
    if comps.len() > 0 {
        let s = n->Node_0;
        let k = comps[0];
        lemma_find(s, k);
        let i = find(s, k)->0;
        let y = lookup(s, k)->0;
        assert(with_slot(s, k) == s);
        lemma_write_same(y, comps.drop_first(), v);
        assert(s.update(i, (k, write_val(s[i].1, comps.drop_first(), v))) =~= s);
    }
}

/// The entries a write starts from, in a value whose maps all keep key order, are in key order.
pub proof fn lemma_wf_top(n: Val)
    requires
        wf(n),
    ensures
        wf(Val::Node(top_entries(n))),
        sorted(top_entries(n)),
{
}

/// Giving the operations their triggers, in a root whose maps keep their keys in
/// order, leaves each trigger reading as the empty map, and giving them again
/// changes nothing.
pub proof fn law_preinit_ops(root: Val)
    requires
        wf(root),
    ensures
        ({
            let e = Val::Node(Seq::empty());
            let p_add = seq![str_val(name_ops()), str_val(name_add()), str_val(name_trigger())];
            let p_run = seq![str_val(name_ops()), str_val(name_run()), str_val(name_trigger())];
            let r2 = write_val(write_val(root, p_add, e), p_run, e);
            &&& walk_val(r2, p_add) == e
            &&& walk_val(r2, p_run) == e
            &&& write_val(write_val(r2, p_add, e), p_run, e) == r2
        }),
{
    let e = Val::Node(Seq::<(Val, Val)>::empty());
    let o = str_val(name_ops());
    let a = str_val(name_add());
    let r = str_val(name_run());
    let t = str_val(name_trigger());
    let p_add = seq![o, a, t];
    let p_run = seq![o, r, t];
    assert(p_add.drop_first() =~= seq![a, t]);
    assert(p_run.drop_first() =~= seq![r, t]);
    assert(seq![a, t].drop_first() =~= seq![t]);
    assert(seq![r, t].drop_first() =~= seq![t]);
    assert(seq![t].drop_first() =~= Seq::<Val>::empty());
    lemma_name_not_atomic(name_ops());
    lemma_name_not_atomic(name_add());
    lemma_name_not_atomic(name_run());
    lemma_name_not_atomic(name_trigger());
    law_string_round_trip(name_add());
    law_string_round_trip(name_run());
    assert(name_add() != name_run()) by {
        assert(name_add()[0] != name_run()[0]);
    }
    assert(a != r);

    // The first write, at `.ops.add.trigger.`.
    let r1 = write_val(root, p_add, e);
    lemma_wf_top(root);
    lemma_write_top(root, p_add, e);
    let u1 = r1->Node_0;
    let n1 = slot_of(top_entries(root), o);
    lemma_wf_lookup(top_entries(root), o);
    let x1 = write_val(n1, seq![a, t], e);
    assert(lookup(u1, o) == Some(x1));
    lemma_not_number(u1, o);
    assert(top_entries(r1) == u1);
    lemma_wf_top(n1);
    lemma_write_top(n1, seq![a, t], e);
    let v1 = x1->Node_0;
    let ma = slot_of(top_entries(n1), a);
    let y1 = write_val(ma, seq![t], e);
    assert(lookup(v1, a) == Some(y1));
    lemma_not_number(v1, a);
    assert(top_entries(x1) == v1);

    // The second write, at `.ops.run.trigger.`.
    let r2 = write_val(r1, p_run, e);
    lemma_write_top(r1, p_run, e);
    assert(slot_of(u1, o) == x1);
    let x2 = write_val(x1, seq![r, t], e);
    let u2 = r2->Node_0;
    assert(lookup(u2, o) == Some(x2));
    lemma_write_top(x1, seq![r, t], e);
    let v2 = x2->Node_0;
    assert(lookup(v2, a) == lookup(v1, a));

    law_write_then_walk(root, p_add, e);
    assert(walk_val(r1, p_add) == walk_val(x1, seq![a, t]));
    assert(walk_val(x1, seq![a, t]) == walk_val(y1, seq![t]));
    assert(walk_val(x2, seq![a, t]) == walk_val(y1, seq![t]));
    assert(walk_val(r2, p_add) == walk_val(x2, seq![a, t]));
    law_write_then_walk(r1, p_run, e);

    // Both paths run through maps that hold their components.
    lemma_not_number(u2, o);
    lemma_not_number(v2, a);
    lemma_wf_lookup(top_entries(n1), a);
    lemma_wf_top(ma);
    lemma_write_top(ma, seq![t], e);
    let w1 = y1->Node_0;
    assert(lookup(w1, t) == Some(e));
    lemma_not_number(w1, t);
    assert(settled(e, Seq::<Val>::empty()));
    assert(settled(y1, seq![t]));
    assert(settled(x2, seq![a, t]));
    assert(settled(r2, p_add));

    let mr = slot_of(v1, r);
    assert(lookup(v1, r) == lookup(top_entries(n1), r));
    lemma_wf_lookup(top_entries(n1), r);
    assert(mr == slot_of(top_entries(n1), r));
    lemma_wf_top(mr);
    let y2 = write_val(mr, seq![t], e);
    assert(lookup(v2, r) == Some(y2));
    lemma_not_number(v2, r);
    lemma_write_top(mr, seq![t], e);
    let w2 = y2->Node_0;
    assert(lookup(w2, t) == Some(e));
    lemma_not_number(w2, t);
    assert(settled(y2, seq![t]));
    assert(settled(x2, seq![r, t]));
    assert(settled(r2, p_run));

    lemma_write_same(r2, p_add, e);
    lemma_write_same(r2, p_run, e);
}

/// Storing under a key greater than every key of a list appends the entry.
pub proof fn lemma_set_entry_append(s: Seq<(Val, Val)>, k: Val, v: Val)
    requires
        forall|i: int| 0 <= i < s.len() ==> ord(#[trigger] s[i].0, k) == Order::Less,
    ensures
        set_entry(s, k, v) == s.push((k, v)),
    decreases s.len(),
{
    if s.len() > 0 {
        let r = s.drop_first();
        assert forall|i: int| 0 <= i < r.len() implies ord(#[trigger] r[i].0, k) == Order::Less by {
            assert(r[i] == s[i + 1]);
        }
        lemma_set_entry_append(r, k, v);
        assert(seq![s[0]] + r.push((k, v)) =~= s.push((k, v)));
    }
}

/// Building a map from pairs already in key order gives those pairs.
pub proof fn lemma_collect_in_order(p: Seq<(Val, Val)>)
    requires
        sorted(p),
    ensures
        collect_entries(p) == p,
    decreases p.len(),
{
    if p.len() > 0 {
        let q = p.drop_last();
        assert(sorted(q)) by {
            assert forall|i: int, j: int| 0 <= i < j < q.len() implies ord(#[trigger] q[i].0, #[trigger] q[j].0) == Order::Less by {
                assert(q[i] == p[i] && q[j] == p[j]);
            }
        }
        lemma_collect_in_order(q);
        assert forall|i: int| 0 <= i < q.len() implies ord(#[trigger] q[i].0, p.last().0) == Order::Less by {
            assert(q[i] == p[i]);
        }
        lemma_set_entry_append(q, p.last().0, p.last().1);
        assert(q.push(p.last()) =~= p);
    }
}

/// The pairs of a system list are in key order.
pub proof fn lemma_sys_pairs_sorted(items: Seq<Val>)
    requires
        items.len() <= 0x1_0000_0000,
    ensures
        sorted(sys_list_pairs(items)),
{
    let p = sys_list_pairs(items);
    assert forall|i: int, j: int| 0 <= i < j < p.len() implies ord(#[trigger] p[i].0, #[trigger] p[j].0) == Order::Less by {
        assert(p[i].0 == atomic_val(i as nat));
        assert(p[j].0 == atomic_val(j as nat));
        crate::encode::lemma_atomic_increasing(i as nat, j as nat);
    }
}

/// Reading the bit entries of a number from bit `i` on, having read its low `i` bits.
pub proof fn lemma_bits_or(u: nat, w: nat, i: nat)
    requires
        1 <= w <= 64,
        u < pow2(w),
        i <= w,
    ensures
        or_keys(sys_list_pairs(bit_atoms(u, w)).skip(i as int), w, (u % pow2(i)) as u64) == Ok::<Option<u64>, HaltV>(Some(u as u64)),
    decreases w - i,
{
    let p = sys_list_pairs(bit_atoms(u, w));
    vstd::arithmetic::power2::lemma2_to64();
    lemma_pow2_pos(i);
    if i == w {
        assert(p.skip(i as int).len() == 0);
        lemma_small_mod(u, pow2(w));
    } else {
        vstd::arithmetic::power2::lemma_pow2_strictly_increases(i, 64);
        vstd::arithmetic::power2::lemma_pow2_strictly_increases(i + 1, 65);
        vstd::arithmetic::power2::lemma_pow2_unfold(65);
        assert(pow2(i) < pow2(64));
        assert(u % pow2(i) < pow2(i));
        let q = p.skip(i as int);
        let b: nat = if bit(u, i) { 1 } else { 0 };
        assert(q[0] == (atomic_val(i), atomic_val(b)));
        assert(q.drop_first() =~= p.skip((i + 1) as int));
        law_atomic_try_round_trip(Val::Nil, i);
        law_atomic_try_round_trip(Val::Nil, b);
        lemma_mod_pow2_step(u, i + 1);
        let acc = (u % pow2(i)) as u64;
        assert(acc as nat == u % pow2(i));
        if bit(u, i) {
            let k = i as u64;
            vstd::bits::lemma_u64_shl_is_mul(1u64, k);
            let m = 1u64 << k;
            assert(m as nat == pow2(i));
            assert(acc < m ==> (acc | m) == acc + m) by (bit_vector)
                requires
                    m == 1u64 << k,
                    k < 64,
            ;
            assert((acc | (1u64 << i)) as nat == u % pow2(i + 1));
        }
        lemma_bits_or(u, w, i + 1);
    }
}

/// A number written as the system list of its bits reads back as itself.
pub proof fn law_bits_round_trip(u: nat, w: nat)
    requires
        1 <= w <= 64,
        u < pow2(w),
    ensures
        prim_of(bits_val(u, w), w) == Ok::<Option<u64>, HaltV>(Some(u as u64)),
{
    let items = bit_atoms(u, w);
    let p = sys_list_pairs(items);
    lemma_sys_pairs_sorted(items);
    lemma_collect_in_order(p);
    assert(p.skip(0) =~= p);
    assert(pow2(0) == 1) by {
        vstd::arithmetic::power2::lemma2_to64();
    }
    lemma_bits_or(u, w, 0);
}

/// Different numbers below `2^w` are written as different lists of bits.
pub proof fn lemma_bits_injective(i: nat, j: nat, w: nat)
    requires
        1 <= w <= 64,
        i < pow2(w),
        j < pow2(w),
    ensures
        (bits_val(i, w) == bits_val(j, w)) == (i == j),
{
    law_bits_round_trip(i, w);
    law_bits_round_trip(j, w);
    vstd::arithmetic::power2::lemma2_to64();
    if w < 64 {
        vstd::arithmetic::power2::lemma_pow2_strictly_increases(w, 64);
    }
}

/// The width of `usize` is between 1 and 64.
pub proof fn lemma_usize_width()
    ensures
        1 <= usize_width() <= 64,
{
    let x: usize = 0;
    x.unsigned_bound();
}

/// In a marked list's items, position `i` holds item `i`, and positions past the end hold nothing.
pub proof fn lemma_marked_lookup(items: Seq<Val>, i: nat)
    requires
        items.len() <= pow2(usize_width()),
        i < pow2(usize_width()),
    ensures
        lookup(collect_entries(marked_item_pairs(items)), bits_val(i, usize_width())) == if i < items.len() {
            Some(items[i as int])
        } else {
            None
        },
    decreases items.len(),
{
    let w = usize_width();
    let p = marked_item_pairs(items);
    lemma_usize_width();
    if items.len() > 0 {
        let n1 = (items.len() - 1) as nat;
        let init = items.drop_last();
        assert(p.drop_last() =~= marked_item_pairs(init));
        assert(p.last() == (bits_val(n1, w), items[n1 as int]));
        lemma_collect_sorted(p.drop_last());
        lemma_set_entry_lookup(collect_entries(p.drop_last()), bits_val(n1, w), items[n1 as int], bits_val(i, w));
        lemma_bits_injective(i, n1, w);
        lemma_marked_lookup(init, i);
    }
}

/// Walking the map of a marked list from position `i` gives its items from `i` on.
pub proof fn lemma_marked_rest(items: Seq<Val>, i: nat)
    requires
        items.len() < pow2(usize_width()),
        i <= items.len(),
    ensures
        ({
            let c = collect_entries(marked_item_pairs(items));
            let s = set_entry(c, Val::Nil, bits_val(items.len(), usize_width()));
            marked_rest(Some(s), i, items.len()) == items.skip(i as int)
        }),
    decreases items.len() - i,
{
    let w = usize_width();
    let c = collect_entries(marked_item_pairs(items));
    let s = set_entry(c, Val::Nil, bits_val(items.len(), w));
    if i < items.len() {
        lemma_marked_lookup(items, i);
        lemma_collect_sorted(marked_item_pairs(items));
        lemma_set_entry_lookup(c, Val::Nil, bits_val(items.len(), w), bits_val(i, w));
        lemma_marked_rest(items, i + 1);
        assert(items.skip(i as int) =~= seq![items[i as int]] + items.skip((i + 1) as int));
    } else {
        assert(items.skip(i as int) =~= Seq::<Val>::empty());
    }
}

/// A marked list records its length, which reads back.
pub proof fn lemma_marked_count(items: Seq<Val>)
    requires
        items.len() < pow2(usize_width()),
    ensures
        marked_count(MarkedList::list_of(items)) == Ok::<Option<u64>, HaltV>(Some(items.len() as u64)),
{
    let w = usize_width();
    lemma_usize_width();
    let c = collect_entries(marked_item_pairs(items));
    crate::order::lemma_set_entry_get(c, Val::Nil, bits_val(items.len(), w));
    law_bits_round_trip(items.len(), w);
}

/// Walking a marked list gives back exactly its items, and then the walk ends.
pub proof fn law_marked_list_walk(items: Seq<Val>)
    requires
        items.len() < pow2(usize_width()),
    ensures
        marked_walk(MarkedList::list_of(items)) == Ok::<Seq<Val>, HaltV>(items),
{
    lemma_marked_count(items);
    lemma_usize_width();
    vstd::arithmetic::power2::lemma2_to64();
    if usize_width() < 64 {
        vstd::arithmetic::power2::lemma_pow2_strictly_increases(usize_width(), 64);
    }
    lemma_marked_rest(items, 0);
    assert(items.skip(0) =~= items);
}

/// A key that no pair has is absent from the map built from the pairs.
pub proof fn lemma_collect_absent(p: Seq<(Val, Val)>, k: Val)
    requires
        forall|i: int| 0 <= i < p.len() ==> #[trigger] p[i].0 != k,
    ensures
        lookup(collect_entries(p), k) is None,
    decreases p.len(),
{
    lemma_collect_lookup(p, k);
    if p.len() > 0 {
        let q = p.drop_last();
        assert forall|i: int| 0 <= i < q.len() implies #[trigger] q[i].0 != k by {
            assert(q[i] == p[i]);
        }
        lemma_collect_absent(q, k);
        lemma_collect_lookup(q, k);
    }
}

/// A marked list's items make one entry each.
pub proof fn lemma_marked_len(items: Seq<Val>)
    requires
        items.len() <= pow2(usize_width()),
    ensures
        collect_entries(marked_item_pairs(items)).len() == items.len(),
    decreases items.len(),
{
    if items.len() > 0 {
        let p = marked_item_pairs(items);
        let n1 = (items.len() - 1) as nat;
        let init = items.drop_last();
        assert(p.drop_last() =~= marked_item_pairs(init));
        lemma_marked_len(init);
        lemma_marked_lookup(init, n1);
        lemma_set_entry_new_len(collect_entries(p.drop_last()), bits_val(n1, usize_width()), items[n1 as int]);
    }
}

/// Reading the first `n` characters of a string of the list-kind interpreter gives them back.
pub proof fn lemma_chars_at_str(cs: Seq<char>, n: nat)
    requires
        cs.len() < pow2(usize_width()),
        n <= cs.len(),
    ensures
        ({
            let items = Seq::new(cs.len(), |i: int| char_bits(cs[i]));
            let c = collect_entries(marked_item_pairs(items));
            let s = set_entry(c, Val::Nil, bits_val(cs.len(), usize_width()));
            chars_at(s, n) == Ok::<Option<Seq<char>>, HaltV>(Some(cs.take(n as int)))
        }),
    decreases n,
{
    if n == 0 {
        assert(cs.take(0) =~= Seq::<char>::empty());
    } else {
        let w = usize_width();
        let items = Seq::new(cs.len(), |i: int| char_bits(cs[i]));
        let c = collect_entries(marked_item_pairs(items));
        let n1 = (n - 1) as nat;
        lemma_chars_at_str(cs, n1);
        lemma_marked_lookup(items, n1);
        lemma_collect_sorted(marked_item_pairs(items));
        lemma_set_entry_lookup(c, Val::Nil, bits_val(cs.len(), w), bits_val(n1, w));
        let ch = cs[n1 as int];
        let u = ch as u32;
        vstd::arithmetic::power2::lemma2_to64();
        law_bits_round_trip(u as nat, 32);
        vstd::utf8::char_u32_cast(ch, u);
        assert(valid_code(u as nat));
        assert(((u as u64) as u32) as char == ch);
        assert(cs.take(n1 as int).push(ch) =~= cs.take(n as int));
    }
}

/// In the list-kind interpreter, a string written as a value reads back as the same characters.
pub proof fn law_list_string_round_trip(cs: Seq<char>)
    requires
        cs.len() < pow2(usize_width()),
    ensures
        crate::revision::string_of(string_val(cs)) == Ok::<Option<Seq<char>>, HaltV>(Some(cs)),
{
    let w = usize_width();
    let items = Seq::new(cs.len(), |i: int| char_bits(cs[i]));
    let p = marked_item_pairs(items);
    let c = collect_entries(p);
    lemma_usize_width();
    vstd::arithmetic::power2::lemma2_to64();
    if w < 64 {
        vstd::arithmetic::power2::lemma_pow2_strictly_increases(w, 64);
    }
    assert((cs.len() as u64) as nat == cs.len());
    lemma_marked_count(items);
    lemma_marked_len(items);
    assert forall|i: int| 0 <= i < p.len() implies #[trigger] p[i].0 != Val::Nil by {
        assert(p[i].0 == bits_val(i as nat, w));
    }
    lemma_collect_absent(p, Val::Nil);
    lemma_set_entry_new_len(c, Val::Nil, bits_val(cs.len(), w));
    lemma_chars_at_str(cs, cs.len());
    assert(cs.take(cs.len() as int) =~= cs);
}

/// In the list-kind interpreter, different numbers of one type are written as
/// different lists of bits.
pub proof fn law_list_from_prim_injective<T: Primitive>(x: T, y: T)
    ensures
        (bits_val(x.unsigned(), T::width()) == bits_val(y.unsigned(), T::width())) == (x == y),
{
    x.unsigned_bound();
    y.unsigned_bound();
    x.unsigned_injective(y);
    lemma_bits_injective(x.unsigned(), y.unsigned(), T::width());
}

/// A 32-bit pattern is written as one value whether it is read as signed or unsigned.
pub proof fn law_from_prim_same_pattern(z: u32)
    ensures
        prim_val((z as i32).unsigned(), 32, 32) == prim_val(z.unsigned(), 32, 32),
{
    let y = z as i32;
    assert((if y >= 0 { y as int } else { y + 0x1_0000_0000 }) == z as int) by (bit_vector)
        requires
            y == z as i32,
    ;
}

/// Running a program from statement `i` on ends with the run going on: its result is `Ok`.
pub proof fn lemma_exec_from_ok(root: Val, s: Seq<(Val, Val)>, i: nat, fuel: nat)
    ensures
        exec_from(root, s, i, fuel) matches Step::Done(_, _, res) ==> res is Ok,
    decreases u32::MAX + 1 - i,
{
    if i <= u32::MAX {
        match lookup(s, atomic_val(i)) {
            None => {},
            Some(stmt) => {
                if i < u32::MAX {
                    match stmt_sem(root, stmt, fuel) {
                        Step::Stop(_) => {},
                        Step::Done(r2, _, _) => {
                            lemma_exec_from_ok(r2, s, i + 1, fuel);
                        },
                    }
                }
            },
        }
    }
}

/// A program of two statements runs as the program of the first followed by the
/// program of the second: an error in the first is reported and the second still
/// runs; a stop in the first stops the whole.
pub proof fn law_program_runs_in_turn(root: Val, s0: Val, s1: Val, fuel: nat)
    ensures
        exec_sem(root, sys_val(seq![s0, s1]), fuel) == match exec_sem(root, sys_val(seq![s0]), fuel) {
            Step::Stop(a) => Step::Stop(a),
            Step::Done(r1, d1, _) => then_log(d1, exec_sem(r1, sys_val(seq![s1]), fuel)),
        },
{
    let c2 = collect_entries(sys_list_pairs(seq![s0, s1]));
    let c0 = collect_entries(sys_list_pairs(seq![s0]));
    let c1 = collect_entries(sys_list_pairs(seq![s1]));
    lemma_sys_lookup(seq![s0, s1], 0);
    lemma_sys_lookup(seq![s0, s1], 1);
    lemma_sys_lookup(seq![s0, s1], 2);
    lemma_sys_lookup(seq![s0], 0);
    lemma_sys_lookup(seq![s0], 1);
    lemma_sys_lookup(seq![s1], 0);
    lemma_sys_lookup(seq![s1], 1);
    match stmt_sem(root, s0, fuel) {
        Step::Stop(_) => {},
        Step::Done(r1, d1, _) => {
            assert(exec_from(r1, c0, 1, fuel) == Step::Done(r1, Seq::<DiagV>::empty(), Ok::<(), InterpError>(())));
            assert(d1 + Seq::<DiagV>::empty() =~= d1);
            assert(exec_sem(root, sys_val(seq![s0]), fuel) == Step::Done(r1, d1, Ok::<(), InterpError>(())));
            match stmt_sem(r1, s1, fuel) {
                Step::Stop(_) => {},
                Step::Done(r2, d2, _) => {
                    assert(exec_from(r2, c2, 2, fuel) == Step::Done(r2, Seq::<DiagV>::empty(), Ok::<(), InterpError>(())));
                    assert(exec_from(r2, c1, 1, fuel) == Step::Done(r2, Seq::<DiagV>::empty(), Ok::<(), InterpError>(())));
                },
            }
            assert(exec_from(r1, c2, 1, fuel) == exec_from(r1, c1, 0, fuel));
        },
    }
}

/// An assignment statement dereferences each side as often as its depth says, all
/// against the root as it was, and then assigns the right side at the left side.
pub proof fn law_do_set_is_assign_of_derefs(root: Val, lhs: Val, ld: nat, rhs: Val, rd: nat, fuel: nat)
    requires
        ld < 0x8000_0000,
        rd < 0x8000_0000,
    ensures
        do_set_sem(root, sys_val(seq![lhs, atomic_val(ld)]), sys_val(seq![rhs, atomic_val(rd)]), fuel)
            == match deref_val(root, lhs, ld) {
            Err(e) => Step::Done(root, Seq::empty(), Err(e)),
            Ok(p) => match deref_val(root, rhs, rd) {
                Err(e) => Step::Done(root, Seq::empty(), Err(e)),
                Ok(v) => assign_sem(root, p, v, fuel),
            },
        },
{
    lemma_sys_pair(lhs, atomic_val(ld));
    lemma_sys_pair(rhs, atomic_val(rd));
    lemma_atomic_of(atomic_val(ld), ld);
    lemma_atomic_of(atomic_val(rd), rd);
    assert(as_i32(ld) == ld);
    assert(as_i32(rd) == rd);
    assert(times(ld as int) == ld);
    assert(times(rd as int) == rd);
}

/// `run` runs its program against the root, keeping what the program wrote and
/// reported, and returns the number `0`; a program that stops the run stops it.
pub proof fn law_run_returns_zero(root: Val, args: Val, fuel: nat)
    ensures
        op_sem(Op::Run, root, args, fuel) == match exec_sem(root, lookup_key(args, name_program()), fuel) {
            Step::Stop(a) => OpStep::Stop(a),
            Step::Done(r2, d, _) => OpStep::Done(r2, d, Ok(int_val(0))),
        },
{
    match lookup_key(args, name_program()) {
        Val::Node(s) => lemma_exec_from_ok(root, s, 0, fuel),
        Val::Nil => {},
    }
}

/// In the list-kind interpreter, every statement `[[lhs, lhs_depth], [rhs, rhs_depth]]`
/// reads back as its sides and depths.
pub proof fn law_statement_reads_back(l: Val, ld: nat, r: Val, rd: nat)
    requires
        ld <= u32::MAX,
        rd <= u32::MAX,
    ensures
        assignment_of(sys_val(seq![sys_val(seq![l, atomic_val(ld)]), sys_val(seq![r, atomic_val(rd)])]))
            == Ok::<(Val, nat, Val, nat), HaltV>((l, ld, r, rd)),
{
    let lp = sys_val(seq![l, atomic_val(ld)]);
    let rp = sys_val(seq![r, atomic_val(rd)]);
    lemma_sys_pair(l, atomic_val(ld));
    lemma_sys_pair(r, atomic_val(rd));
    lemma_sys_pair(lp, rp);
    law_atomic_try_round_trip(Val::Nil, ld);
    law_atomic_try_round_trip(Val::Nil, rd);
}

/// Dereferencing zero times gives the value itself, and each further time reads the
/// result so far as a path and walks it from the root: a number or the empty value is
/// no path, and a walk that fails is an error. So a depth of `n` walks `n` times.
pub proof fn law_deref_steps(root: Val, v: Val, n: nat)
    ensures
        deref_val(root, v, 0) == Ok::<Val, InterpError>(v),
        deref_val(root, v, n + 1) == match deref_val(root, v, n) {
            Err(e) => Err(e),
            Ok(u) => if u is Nil || decode_prim(u, 32) is Some {
                Err(InterpError::NotAPath)
            } else {
                walk_res(root, path_items(u))
            },
        },
{
}

/// Dereferencing twice walks the path found by the first walk: a path to a path
/// reaches what the second path names.
pub proof fn law_deref_twice(root: Val, v: Val, u: Val, w: Val)
    requires
        v is Node,
        decode_prim(v, 32) is None,
        walk_res(root, path_items(v)) == Ok::<Val, InterpError>(u),
        u is Node,
        decode_prim(u, 32) is None,
        walk_res(root, path_items(u)) == Ok::<Val, InterpError>(w),
    ensures
        deref_val(root, v, 2) == Ok::<Val, InterpError>(w),
{
    law_deref_steps(root, v, 0);
    law_deref_steps(root, v, 1);
}

/// `add` returns the sum of its signed 32-bit arguments when the sum fits, whatever
/// their signs, and stops the run exactly when it does not fit.
pub proof fn law_add_sums(root: Val, args: Val, l: i32, r: i32, s: i32)
    requires
        lookup_key(args, name_left()) == prim_val(l.unsigned(), 32, 32),
        lookup_key(args, name_right()) == prim_val(r.unsigned(), 32, 32),
    ensures
        s == l + r ==> add_sem(root, args) == OpStep::Done(root, Seq::<DiagV>::empty(), Ok::<Val, InterpError>(prim_val(s.unsigned(), 32, 32))),
        (l + r < i32::MIN || l + r > i32::MAX) ==> add_sem(root, args) == OpStep::Stop(AbortV::AddOverflow),
{
    vstd::arithmetic::power2::lemma2_to64();
    l.unsigned_bound();
    r.unsigned_bound();
    law_prim_round_trip(l.unsigned());
    law_prim_round_trip(r.unsigned());
    assert(as_i32(l.unsigned()) == l);
    assert(as_i32(r.unsigned()) == r);
}

/// The decimal digits of a number are not empty and do not start with a double quote.
pub proof fn lemma_decimal_start(n: nat)
    ensures
        decimal(n).len() > 0,
        decimal(n)[0] != '"',
    decreases n,
{
    if n < 10 {
        let c = ((48 + n) as u8) as char;
        assert((48 + n) as u8 == 48 + n);
        assert(c as u32 == 48 + n);
        assert('"' as u32 == 34);
    } else {
        lemma_decimal_start(n / 10);
    }
}

/// A value prints between double quotes only when it spells a string all of whose
/// characters are printable ASCII, from the space to the tilde; and such a string,
/// when it is no number, prints as its characters between double quotes.
pub proof fn law_quoted_only_printable(v: Val)
    ensures
        render(v).len() > 0 && render(v)[0] == '"' ==> (string_of(v) matches Some(t) && forall|i: int|
            0 <= i < t.len() ==> ' ' <= #[trigger] t[i] && t[i] <= '~'),
        (string_of(v) matches Some(t) && t.len() > 0 && decode_prim(v, 32) is None && forall|i: int|
            0 <= i < t.len() ==> ' ' <= #[trigger] t[i] && t[i] <= '~') ==> render(v) == "\""@ + string_of(v)->0 + "\""@,
{
    reveal_strlit("<self>");
    reveal_strlit("{}");
    reveal_strlit("[");
    reveal_strlit("{");
    reveal_strlit("-");
    reveal_strlit("\"");
    match v {
        Val::Nil => {},
        Val::Node(s) => {
            if decode_prim(v, 32) is Some {
                let u = decode_prim(v, 32)->0;
                if u < 0x8000_0000 {
                    lemma_decimal_start(u);
                } else {
                    lemma_decimal_start((0x1_0000_0000 - u) as nat);
                }
            } else if string_of(v) matches Some(t) && t.len() > 0 {
                assert(s.len() > 0);
            }
        },
    }
}

/// Whitespace (the space, the tab, the carriage return and the line feed) between
/// tokens is passed over: a value read just before it is the value read just after
/// it, and skipping stops at the first character that is none of them.
pub proof fn law_whitespace_skipped<E: crate::parse::Encoding>(s: Seq<char>, p: nat)
    ensures
        p < s.len() && (s[p as int] == ' ' || s[p as int] == '\t' || s[p as int] == '\r' || s[p as int] == '\n') ==> {
            &&& crate::parse::skip_ws(s, p) == crate::parse::skip_ws(s, p + 1)
            &&& p_value::<E>(s, p) == p_value::<E>(s, p + 1)
        },
        crate::parse::skip_ws(s, p) < s.len() ==> {
            let q = crate::parse::skip_ws(s, p);
            !(s[q as int] == ' ' || s[q as int] == '\t' || s[q as int] == '\r' || s[q as int] == '\n')
        },
{
    crate::parse::lemma_skip_ws(s, p);
}

/// Firing `run` with one more unit of fuel runs its program with the rest: the
/// program under `.ops.run.args.program.` is executed against the root with fuel `f`,
/// so operations it fires nest one level deeper, and then `0` is written at
/// `.ops.run.return.`.
#[verifier::spinoff_prover]
#[verifier::rlimit(40)]
pub proof fn law_fire_run_executes_program(root: Val, f: nat)
    ensures
        fire_sem(root, name_run(), f + 1) == match exec_sem(
            root,
            lookup_key(walk_val(root, seq![str_val(name_ops()), str_val(name_run()), str_val(name_args())]), name_program()),
            f,
        ) {
            Step::Stop(a) => Step::Stop(a),
            Step::Done(r2, d, _) => then_log(d, assign_sem(r2, path_of(seq![name_ops(), name_run(), name_return()]), int_val(0), f)),
        },
{
    let names = seq![name_ops(), name_run(), name_args()];
    let comps = Seq::new(names.len(), |i: int| str_val(names[i]));
    law_path_reads_back(comps);
    assert(comps =~= seq![str_val(name_ops()), str_val(name_run()), str_val(name_args())]);
    assert(name_run() != name_add()) by {
        assert(name_run()[0] != name_add()[0]);
    }
    let args = walk_val(root, comps);
    law_run_returns_zero(root, args, f);
}

/// A write under `.ops.<op>.` of a value that is not empty fires nothing unless it
/// is at exactly `.ops.<op>.trigger.`, or at `.ops.<op>.` itself: deeper writes,
/// even below `trigger`, only store the value.
pub proof fn law_ops_write_off_trigger_fires_nothing(root: Val, path: Val, val: Val, fuel: nat, name: Seq<char>)
    requires
        path_items(path).len() >= 3,
        string_of(path_items(path)[0]) == Some(name_ops()),
        string_of(path_items(path)[1]) == Some(name),
        op_named(name) is Some,
        !(path_items(path).len() == 3 && string_of(path_items(path)[2]) == Some(name_trigger())),
        val != Val::Nil,
    ensures
        assign_sem(root, path, val, fuel) == Step::Done(
            write_val(root, path_items(path), val),
            Seq::<DiagV>::empty(),
            Ok::<(), InterpError>(()),
        ),
{
}

/// A write at exactly `.ops.<op>.trigger.` of the empty map or the number `0` stores
/// it and fires the operation against the root as written.
pub proof fn law_trigger_write_fires(root: Val, path: Val, val: Val, fuel: nat, name: Seq<char>)
    requires
        path_items(path).len() == 3,
        string_of(path_items(path)[0]) == Some(name_ops()),
        string_of(path_items(path)[1]) == Some(name),
        op_named(name) is Some,
        string_of(path_items(path)[2]) == Some(name_trigger()),
        val == Val::Node(Seq::empty()) || val == int_val(0),
    ensures
        assign_sem(root, path, val, fuel) == fire_sem(write_val(root, path_items(path), val), name, fuel),
{
    vstd::arithmetic::power2::lemma2_to64();
    law_prim_round_trip(0);
    assert(int_val(0)->Node_0.len() > 0);
}

/// Firing `add` with one more unit of fuel adds its arguments, read at
/// `.ops.add.args.`, and writes what it returns at `.ops.add.return.` with the rest.
#[verifier::spinoff_prover]
pub proof fn law_fire_add(root: Val, f: nat)
    ensures
        fire_sem(root, name_add(), f + 1) == match add_sem(
            root,
            walk_val(root, seq![str_val(name_ops()), str_val(name_add()), str_val(name_args())]),
        ) {
            OpStep::Stop(a) => Step::Stop(a),
            OpStep::Done(r2, d, res) => match res {
                Err(e) => Step::Done(r2, d, Err(e)),
                Ok(x) => then_log(d, assign_sem(r2, path_of(seq![name_ops(), name_add(), name_return()]), x, f)),
            },
        },
{
    let names = seq![name_ops(), name_add(), name_args()];
    let comps = Seq::new(names.len(), |i: int| str_val(names[i]));
    law_path_reads_back(comps);
    assert(comps =~= seq![str_val(name_ops()), str_val(name_add()), str_val(name_args())]);
}

/// A program whose first statement is malformed stops the run before anything is written.
pub proof fn law_malformed_statement_stops(root: Val, fuel: nat)
    ensures
        exec_sem(root, sys_val(seq![Val::Nil]), fuel) == Step::Stop(AbortV::MalformedStatement),
        exec_sem(root, Val::Nil, fuel) == Step::Stop(AbortV::MalformedProgram),
{
    lemma_sys_lookup(seq![Val::Nil], 0);
}

/// Walking a path: no components reach the root itself; a number or the empty value
/// met before the path ends is an error, as is a key the map reached does not hold;
/// otherwise the walk goes on from the value under the key.
pub proof fn law_walk_steps(root: Val, comps: Seq<Val>)
    ensures
        comps.len() == 0 ==> walk_res(root, comps) == Ok::<Val, InterpError>(root),
        comps.len() > 0 && (root is Nil || decode_prim(root, 32) is Some) ==> walk_res(root, comps) == Err::<Val, InterpError>(InterpError::NotAMap),
        comps.len() > 0 && root is Node && decode_prim(root, 32) is None ==> walk_res(root, comps) == match lookup(root->Node_0, comps[0]) {
            None => Err(InterpError::UndefinedKey),
            Some(x) => walk_res(x, comps.drop_first()),
        },
{
}

} // verus!
