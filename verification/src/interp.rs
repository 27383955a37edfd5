//! The interpreter: paths, assignment, triggers and statement execution.
use vstd::prelude::*;
use crate::order::{Val, lookup, find, set_entry, remove_entry, lemma_find};
use crate::value::{V, L, lemma_view_node, views, lemma_entries_update};
use crate::text::{string_of, str_val, value_as_string, same_chars, str_to_value, chars_to_value, chars_of};
use crate::encode::{atomic_val, int_val, index_val, atomic_of, decode_prim};
use crate::ops::{Op, op_named, op_by_chars, call_op};

verus! {

/// The items of a list from position `i`: the values under the integers
/// `i, i + 1, ...`, up to the first missing one.
pub open spec fn items_from(s: Seq<(Val, Val)>, i: nat) -> Seq<Val>
    decreases 0x1_0000_0000 - i,
{
    if i >= 0x1_0000_0000 {
        Seq::empty()
    } else {
        match lookup(s, int_val(i)) {
            None => Seq::empty(),
            Some(x) => seq![x] + items_from(s, i + 1),
        }
    }
}

/// The components of a path: the values under the integers `0, 1, 2, ...`, up
/// to the first missing one.
pub open spec fn path_items(x: Val) -> Seq<Val> {
    match x {
        Val::Nil => Seq::empty(),
        Val::Node(s) => items_from(s, 0),
    }
}

/// Whether a value is a number rather than a map: the empty value, or a map
/// that reads as a 32-bit number.
pub open spec fn is_number_or_empty(v: Val) -> bool {
    v is Nil || decode_prim(v, 32) is Some
}

/// Following `comps` from `root`: each step must reach a map, not a number, that
/// holds the next key.
pub open spec fn walk_res(root: Val, comps: Seq<Val>) -> Result<Val, InterpError>
    decreases comps.len(),
{
    if comps.len() == 0 {
        Ok(root)
    } else if is_number_or_empty(root) {
        Err(InterpError::NotAMap)
    } else {
        match lookup(root->Node_0, comps[0]) {
            None => Err(InterpError::UndefinedKey),
            Some(x) => walk_res(x, comps.drop_first()),
        }
    }
}

/// Following `comps` from `root`; a missing key or the empty value gives the empty value.
pub open spec fn walk_val(root: Val, comps: Seq<Val>) -> Val
    decreases comps.len(),
{
    if comps.len() == 0 {
        root
    } else {
        match root {
            Val::Nil => Val::Nil,
            Val::Node(s) => walk_val(
                match lookup(s, comps[0]) {
                    Some(x) => x,
                    None => Val::Nil,
                },
                comps.drop_first(),
            ),
        }
    }
}

/// The entries of a map after making sure `k` has an entry, holding an empty map if it was absent.
pub open spec fn with_slot(s: Seq<(Val, Val)>, k: Val) -> Seq<(Val, Val)> {
    if lookup(s, k) is Some {
        s
    } else {
        set_entry(s, k, Val::Node(Seq::empty()))
    }
}

/// Writing `val` at `comps` below `node`: missing maps along the way are created,
/// and an empty value or a number met along the way is replaced by an empty map.
pub open spec fn write_val(node: Val, comps: Seq<Val>, val: Val) -> Val
    decreases comps.len(),
{
    if comps.len() == 0 {
        val
    } else {
        let s = match node {
            Val::Node(s) => if decode_prim(node, 32) is Some { Seq::empty() } else { s },
            Val::Nil => Seq::empty(),
        };
        let t = with_slot(s, comps[0]);
        let i = find(t, comps[0])->0;
        Val::Node(t.update(i, (comps[0], write_val(t[i].1, comps.drop_first(), val))))
    }
}

/// After making a slot for `k`, the first entry for `k` exists.
pub proof fn lemma_with_slot(s: Seq<(Val, Val)>, k: Val)
    ensures
        find(with_slot(s, k), k) is Some,
        0 <= find(with_slot(s, k), k)->0 < with_slot(s, k).len(),
        with_slot(s, k)[find(with_slot(s, k), k)->0].0 == k,
{
    lemma_find(s, k);
    crate::order::lemma_set_entry_get(s, k, Val::Node(Seq::empty()));
    lemma_find(with_slot(s, k), k);
}

/// Writes `val` at the components `comps[i..]` below `node`.
fn write_at(node: &mut V, comps: &Vec<V>, i: usize, val: V)
    requires
        i <= comps@.len(),
    ensures
        final(node)@ == write_val(old(node)@, views(comps@).skip(i as int), val@),
    decreases comps@.len() - i,
{
    let ghost rest = views(comps@).skip(i as int);
    if i == comps.len() {
        *node = val;
        return;
    }
    let ghost s0 = match old(node)@ {
        Val::Node(s) => if decode_prim(old(node)@, 32) is Some { Seq::<(Val, Val)>::empty() } else { s },
        Val::Nil => Seq::<(Val, Val)>::empty(),
    };
    if is_number_or_empty_exec(node) {
        let e = L::new();
        proof {
            lemma_view_node(e);
        }
        node.0 = Some(e);
    }
    proof {
        assert(rest[0] == comps@[i as int]@);
        assert(rest.drop_first() =~= views(comps@).skip(i + 1));
    }
    let ghost k = comps@[i as int]@;
    let ghost t = with_slot(s0, k);
    let ghost idx = find(t, k)->0;
    match &mut node.0 {
        Some(m) => {
            proof {
                lemma_view_node(*m);
                assert(m@ == s0);
                lemma_with_slot(s0, k);
                lemma_find(t, k);
            }
            let key = comps[i].clone();
            let fresh = L::new();
            proof {
                lemma_view_node(fresh);
            }
            let slot = m.entry(key, V(Some(fresh)));
            proof {
                assert(slot@ == t[idx].1);
            }
            write_at(slot, comps, i + 1, val);
            proof {
                assert(m@ == t.update(idx, (k, write_val(t[idx].1, rest.drop_first(), val@))));
                lemma_view_node(*m);
            }
        },
        None => {},
    }
}

/// Removing what `comps` names below `node`; nothing changes where the path does not lead anywhere.
pub open spec fn remove_val(node: Val, comps: Seq<Val>) -> Val
    decreases comps.len(),
{
    if comps.len() == 0 {
        node
    } else {
        match node {
            Val::Nil => Val::Nil,
            Val::Node(s) => if comps.len() == 1 {
                Val::Node(remove_entry(s, comps[0]))
            } else {
                match find(s, comps[0]) {
                    None => node,
                    Some(i) => Val::Node(s.update(i, (s[i].0, remove_val(s[i].1, comps.drop_first())))),
                }
            },
        }
    }
}

/// The components of a path: the values under the integers `0, 1, 2, ...`, up
/// to the first missing one.
pub fn iterate_marked(x: &V) -> (r: Vec<V>)
    ensures
        views(r@) == path_items(x@),
{
    let mut out: Vec<V> = Vec::new();
    let m = match &x.0 {
        None => return out,
        Some(m) => m,
    };
    proof {
        lemma_view_node(*m);
    }
    let ghost s = m@;
    let mut i: u64 = 0;
    proof {
        assert(views(out@) + items_from(s, 0) =~= items_from(s, 0));
    }
    while i < 0x1_0000_0000
        invariant
            s == m@,
            x@ == Val::Node(s),
            i <= 0x1_0000_0000,
            items_from(s, 0) == views(out@) + items_from(s, i as nat),
        decreases 0x1_0000_0000 - i,
    {
        let key = V::from_prim(i as u32);
        proof {
            assert(key@ == int_val(i as nat));
        }
        match m.get(&key) {
            None => {
                proof {
                    assert(items_from(s, i as nat) == Seq::<Val>::empty());
                    assert(views(out@) + Seq::<Val>::empty() =~= views(out@));
                }
                return out;
            },
            Some(y) => {
                let ghost before = out@;
                let item = y.clone();
                out.push(item);
                proof {
                    crate::value::lemma_views_push(before, item);
                    assert(items_from(s, i as nat) == seq![y@] + items_from(s, (i + 1) as nat));
                    assert(views(before) + (seq![y@] + items_from(s, (i + 1) as nat)) =~= views(out@) + items_from(s, (i + 1) as nat));
                }
            },
        }
        i = i + 1;
    }
    proof {
        assert(items_from(s, i as nat) == Seq::<Val>::empty());
        assert(views(out@) + Seq::<Val>::empty() =~= views(out@));
    }
    out
}

/// Whether a value is a number or the empty value rather than a map.
pub fn is_number_or_empty_exec(v: &V) -> (r: bool)
    ensures
        r == is_number_or_empty(v@),
{
    v.0.is_none() || v.try_to_prim::<u32>().is_some()
}

/// The value reached by following `path` from `root`: each step must reach a map,
/// not a number, that holds the next key.
pub fn walk(root: &V, path: &Vec<V>) -> (r: Result<V, InterpError>)
    ensures
        match walk_res(root@, views(path@)) {
            Ok(v) => r matches Ok(x) && x@ == v,
            Err(e) => r == Err::<V, InterpError>(e),
        },
{
    let n = path.len();
    let mut current: &V = root;
    let mut i: usize = 0;
    proof {
        assert(views(path@).skip(0) =~= views(path@));
    }
    while i < n
        invariant
            n == path@.len(),
            i <= n,
            walk_res(root@, views(path@)) == walk_res(current@, views(path@).skip(i as int)),
        decreases n - i,
    {
        let ghost rest = views(path@).skip(i as int);
        proof {
            assert(rest[0] == path@[i as int]@);
            assert(rest.drop_first() =~= views(path@).skip(i + 1));
        }
        if is_number_or_empty_exec(current) {
            return Err(InterpError::NotAMap);
        }
        match &current.0 {
            Some(m) => {
                proof {
                    lemma_view_node(*m);
                }
                match m.get(&path[i]) {
                    Some(next) => {
                        current = next;
                    },
                    None => {
                        return Err(InterpError::UndefinedKey);
                    },
                }
            },
            None => {
                return Err(InterpError::NotAMap);
            },
        }
        i = i + 1;
    }
    proof {
        assert(views(path@).skip(n as int).len() == 0);
    }
    Ok(current.clone())
}

/// The value reached by following `path` from `root`; a missing key or the empty
/// value along the way gives the empty value.
pub fn walk_or_nil(root: &V, path: &Vec<V>) -> (r: V)
    ensures
        r@ == walk_val(root@, views(path@)),
{
    let n = path.len();
    let mut current: &V = root;
    let mut i: usize = 0;
    proof {
        assert(views(path@).skip(0) =~= views(path@));
    }
    while i < n
        invariant
            n == path@.len(),
            i <= n,
            walk_val(root@, views(path@)) == walk_val(current@, views(path@).skip(i as int)),
        decreases n - i,
    {
        let ghost rest = views(path@).skip(i as int);
        proof {
            assert(rest[0] == path@[i as int]@);
            assert(rest.drop_first() =~= views(path@).skip(i + 1));
        }
        match &current.0 {
            Some(m) => {
                proof {
                    lemma_view_node(*m);
                }
                match m.get(&path[i]) {
                    Some(next) => {
                        current = next;
                    },
                    None => {
                        proof {
                            lemma_walk_nil(rest.drop_first());
                        }
                        return V(None);
                    },
                }
            },
            None => {
                return V(None);
            },
        }
        i = i + 1;
    }
    proof {
        assert(views(path@).skip(n as int).len() == 0);
    }
    current.clone()
}

/// Following any path from the empty value gives the empty value.
pub proof fn lemma_walk_nil(comps: Seq<Val>)
    ensures
        walk_val(Val::Nil, comps) == Val::Nil,
{
}

/// Removes what `comps[i..]` names below `node`.
fn remove_from(node: &mut V, comps: &Vec<V>, i: usize)
    requires
        i <= comps@.len(),
    ensures
        final(node)@ == remove_val(old(node)@, views(comps@).skip(i as int)),
    decreases comps@.len() - i,
{
    let ghost rest = views(comps@).skip(i as int);
    if i == comps.len() {
        return;
    }
    proof {
        assert(rest[0] == comps@[i as int]@);
        assert(rest.drop_first() =~= views(comps@).skip(i + 1));
    }
    match &mut node.0 {
        None => {},
        Some(m) => {
            proof {
                lemma_view_node(*m);
            }
            if i + 1 == comps.len() {
                m.remove(&comps[i]);
                proof {
                    lemma_view_node(*m);
                }
            } else {
                let ghost s0 = m@;
                let ghost e0 = m.0@;
                proof {
                    lemma_find(s0, comps@[i as int]@);
                }
                match m.get_mut(&comps[i]) {
                    Some(next) => {
                        let ghost j = find(s0, comps@[i as int]@)->0;
                        remove_from(next, comps, i + 1);
                        proof {
                            lemma_entries_update(e0, j, (e0[j].0, *next));
                            lemma_view_node(*m);
                        }
                    },
                    None => {},
                }
            }
        },
    }
}

/// Removes what `components` names below `root`.
pub fn remove_at(root: &mut V, components: &Vec<V>)
    ensures
        final(root)@ == remove_val(old(root)@, views(components@)),
{
    proof {
        assert(views(components@).skip(0) =~= views(components@));
    }
    remove_from(root, components, 0);
}

/// Writes `val` at `comps` below `root`.
pub fn write_path(root: &mut V, comps: &Vec<V>, val: V)
    ensures
        final(root)@ == write_val(old(root)@, views(comps@), val@),
{
    proof {
        assert(views(comps@).skip(0) =~= views(comps@));
    }
    write_at(root, comps, 0, val);
}

/// The errors a statement can end with; the next statement still runs.
#[derive(Debug, Clone, Copy, PartialEq, Eq)]
pub enum InterpError {
    /// A walk met a key that is not there.
    UndefinedKey,
    /// A walk met a number or the empty value where it needed a map.
    NotAMap,
    /// A value that had to be read as a path is a number or the empty value.
    NotAPath,
}

/// Why a run stops for good.
pub enum Abort {
    /// A write whose path has no components.
    CannotReplaceRoot,
    /// The first component of a written path is not a string.
    NamespaceNotString,
    /// A write to `.ops.` itself.
    OpsDirect,
    /// The second component of a path under `.ops.` is not a string.
    OpNameNotString,
    /// A path under `.ops.` names no registered operation.
    UnknownOp(Vec<char>),
    /// The first component of a written path is neither `ops` nor `var`.
    ForbiddenNamespace(Vec<char>),
    /// Removing `.ops.<op>.`.
    DeleteOp,
    /// Removing `.ops.<op>.trigger.`.
    RemoveTrigger,
    /// A trigger set to something other than the empty map.
    BadTrigger(V),
    /// The `left` argument of `add` is not a number.
    AddLeftNotNumber(V),
    /// The `right` argument of `add` is not a number.
    AddRightNotNumber(V),
    /// The sum computed by `add` does not fit in 32 bits.
    AddOverflow,
    /// Operations fired inside operations nested deeper than the budget allows.
    DepthExceeded,
    /// A program with more statements than a 32-bit counter can number.
    StatementIndexOverflow,
    /// A statement that is not a map holding two sides, each a map.
    MalformedStatement,
    /// A program that is the empty value rather than a map of statements.
    MalformedProgram,
}

/// The model of an `Abort`.
pub enum AbortV {
    CannotReplaceRoot,
    NamespaceNotString,
    OpsDirect,
    OpNameNotString,
    UnknownOp(Seq<char>),
    ForbiddenNamespace(Seq<char>),
    DeleteOp,
    RemoveTrigger,
    BadTrigger(Val),
    AddLeftNotNumber(Val),
    AddRightNotNumber(Val),
    AddOverflow,
    DepthExceeded,
    StatementIndexOverflow,
    MalformedStatement,
    MalformedProgram,
}

impl View for Abort {
    type V = AbortV;

    open spec fn view(&self) -> AbortV {
        match self {
            Abort::CannotReplaceRoot => AbortV::CannotReplaceRoot,
            Abort::NamespaceNotString => AbortV::NamespaceNotString,
            Abort::OpsDirect => AbortV::OpsDirect,
            Abort::OpNameNotString => AbortV::OpNameNotString,
            Abort::UnknownOp(n) => AbortV::UnknownOp(n@),
            Abort::ForbiddenNamespace(n) => AbortV::ForbiddenNamespace(n@),
            Abort::DeleteOp => AbortV::DeleteOp,
            Abort::RemoveTrigger => AbortV::RemoveTrigger,
            Abort::BadTrigger(v) => AbortV::BadTrigger(v@),
            Abort::AddLeftNotNumber(v) => AbortV::AddLeftNotNumber(v@),
            Abort::AddRightNotNumber(v) => AbortV::AddRightNotNumber(v@),
            Abort::AddOverflow => AbortV::AddOverflow,
            Abort::DepthExceeded => AbortV::DepthExceeded,
            Abort::StatementIndexOverflow => AbortV::StatementIndexOverflow,
            Abort::MalformedStatement => AbortV::MalformedStatement,
            Abort::MalformedProgram => AbortV::MalformedProgram,
        }
    }
}

/// A report about a statement that failed; the run goes on with the next one.
pub enum Diag {
    RuntimeError(V, InterpError),
}

/// The model of a `Diag`.
pub enum DiagV {
    RuntimeError(Val, InterpError),
}

/// The model of a report.
pub open spec fn diag_view(d: Diag) -> DiagV {
    match d {
        Diag::RuntimeError(v, e) => DiagV::RuntimeError(v@, e),
    }
}

/// The models of a list of reports.
pub open spec fn diag_views(s: Seq<Diag>) -> Seq<DiagV> {
    Seq::new(s.len(), |i: int| diag_view(s[i]))
}

/// Adding a report adds its model.
pub proof fn lemma_diag_push(s: Seq<Diag>, d: Diag)
    ensures
        diag_views(s.push(d)) == diag_views(s).push(diag_view(d)),
{
    assert(diag_views(s.push(d)) =~= diag_views(s).push(diag_view(d)));
}

/// The outcome of running part of a program: the new root, the reports, and the
/// error the part ended with; or the reason the run stops.
pub enum Step {
    Done(Val, Seq<DiagV>, Result<(), InterpError>),
    Stop(AbortV),
}

/// The outcome of an operation: like `Step`, with the value it returns.
pub enum OpStep {
    Done(Val, Seq<DiagV>, Result<Val, InterpError>),
    Stop(AbortV),
}

/// Reports `d` come before those of `st`.
pub open spec fn then_log(d: Seq<DiagV>, st: Step) -> Step {
    match st {
        Step::Done(r, d2, res) => Step::Done(r, d + d2, res),
        Step::Stop(a) => Step::Stop(a),
    }
}

/// Reports gathered in steps come out in order.
pub proof fn lemma_then_log(a: Seq<DiagV>, b: Seq<DiagV>, st: Step)
    ensures
        then_log(a, then_log(b, st)) == then_log(a + b, st),
        then_log(Seq::empty(), st) == st,
{
    match st {
        Step::Done(r, d, res) => {
            assert(a + (b + d) =~= (a + b) + d);
            assert(Seq::<DiagV>::empty() + d =~= d);
        },
        Step::Stop(_) => {},
    }
}

/// Whether an executable result, root and report list agree with an outcome.
pub open spec fn follows(
    r: Result<Result<(), InterpError>, Abort>,
    root: Val,
    log0: Seq<Diag>,
    log1: Seq<Diag>,
    st: Step,
) -> bool {
    match st {
        Step::Done(rt, d, res) => {
            &&& r == Ok::<Result<(), InterpError>, Abort>(res)
            &&& root == rt
            &&& diag_views(log1) == diag_views(log0) + d
        },
        Step::Stop(a) => r matches Err(e) && e@ == a,
    }
}

/// Whether an executable operation result agrees with an operation outcome.
pub open spec fn op_follows(
    r: Result<Result<V, InterpError>, Abort>,
    root: Val,
    log0: Seq<Diag>,
    log1: Seq<Diag>,
    st: OpStep,
) -> bool {
    match st {
        OpStep::Done(rt, d, res) => {
            &&& match res {
                Ok(v) => r matches Ok(Ok(x)) && x@ == v,
                Err(e) => r == Ok::<Result<V, InterpError>, Abort>(Err(e)),
            }
            &&& root == rt
            &&& diag_views(log1) == diag_views(log0) + d
        },
        OpStep::Stop(a) => r matches Err(e) && e@ == a,
    }
}

/// The name `ops`.
pub open spec fn name_ops() -> Seq<char> {
    seq!['o', 'p', 's']
}

/// The name `var`.
pub open spec fn name_var() -> Seq<char> {
    seq!['v', 'a', 'r']
}

/// The name `trigger`.
pub open spec fn name_trigger() -> Seq<char> {
    seq!['t', 'r', 'i', 'g', 'g', 'e', 'r']
}

/// The name `args`.
pub open spec fn name_args() -> Seq<char> {
    seq!['a', 'r', 'g', 's']
}

/// The name `return`.
pub open spec fn name_return() -> Seq<char> {
    seq!['r', 'e', 't', 'u', 'r', 'n']
}

/// The path of the given strings: each under its position.
pub open spec fn path_of(names: Seq<Seq<char>>) -> Val {
    index_val(Seq::new(names.len(), |i: int| str_val(names[i])))
}

/// The value under the string `key`, or the empty value.
pub open spec fn lookup_key(v: Val, key: Seq<char>) -> Val {
    match v {
        Val::Node(s) => match lookup(s, str_val(key)) {
            Some(x) => x,
            None => Val::Nil,
        },
        Val::Nil => Val::Nil,
    }
}

/// Where a write may go: `.var.` anything, or `.ops.<registered op>.` anything.
pub open spec fn check_path(comps: Seq<Val>) -> Option<AbortV> {
    match string_of(comps[0]) {
        None => Some(AbortV::NamespaceNotString),
        Some(f) => if f == name_ops() {
            if comps.len() < 2 {
                Some(AbortV::OpsDirect)
            } else {
                match string_of(comps[1]) {
                    None => Some(AbortV::OpNameNotString),
                    Some(n) => if op_named(n) is None { Some(AbortV::UnknownOp(n)) } else { None },
                }
            }
        } else if f == name_var() {
            None
        } else {
            Some(AbortV::ForbiddenNamespace(f))
        },
    }
}

/// A trigger may only be set to the empty map or the number `0`.
pub open spec fn trigger_check(v: Val) -> Option<AbortV> {
    match v {
        Val::Node(s) => if s.len() == 0 || decode_prim(v, 32) == Some(0nat) { None } else { Some(AbortV::BadTrigger(v)) },
        Val::Nil => Some(AbortV::BadTrigger(v)),
    }
}

/// What may be written under `.ops.`: an operation and its trigger are never removed,
/// and a trigger written directly or inside an operation record must be the empty map
/// or the number `0`.
pub open spec fn check_value(comps: Seq<Val>, val: Val) -> Option<AbortV> {
    if string_of(comps[0]) != Some(name_ops()) {
        None
    } else if val == Val::Nil {
        if comps.len() == 2 {
            Some(AbortV::DeleteOp)
        } else if comps.len() == 3 && string_of(comps[2]) == Some(name_trigger()) {
            Some(AbortV::RemoveTrigger)
        } else {
            None
        }
    } else if comps.len() == 3 && string_of(comps[2]) == Some(name_trigger()) {
        trigger_check(val)
    } else if comps.len() == 2 {
        match val {
            Val::Node(s) => match lookup(s, str_val(name_trigger())) {
                Some(t) => trigger_check(t),
                None => None,
            },
            Val::Nil => None,
        }
    } else {
        None
    }
}

/// The operation a write fires: a write at `.ops.<name>.trigger.`, or a write at
/// `.ops.<name>.` of a map with a `trigger` key.
pub open spec fn fire_target(comps: Seq<Val>, written: Val) -> Option<Seq<char>> {
    if comps.len() < 2 || string_of(comps[0]) != Some(name_ops()) {
        None
    } else {
        match string_of(comps[1]) {
            None => None,
            Some(name) => if (comps.len() == 3 && string_of(comps[2]) == Some(name_trigger())) || (
            comps.len() == 2 && match written {
                Val::Node(s) => lookup(s, str_val(name_trigger())) is Some,
                Val::Nil => false,
            }) {
                Some(name)
            } else {
                None
            },
        }
    }
}

/// A depth read as a 32-bit signed number.
pub open spec fn as_i32(d: nat) -> int {
    if d < 0x8000_0000 { d as int } else { d - 0x1_0000_0000 }
}

/// The expression and depth of one side of a statement: the expression under the
/// unary key `0` (the empty value when absent) and the depth under the unary key `1`
/// (zero when absent); a side that is the empty value is malformed.
pub open spec fn extract(pair: Val) -> Option<(Val, int)> {
    match pair {
        Val::Nil => None,
        Val::Node(m) => {
            let expr = match lookup(m, Val::Nil) {
                Some(x) => x,
                None => Val::Nil,
            };
            let dv = match lookup(m, atomic_val(1)) {
                Some(x) => x,
                None => Val::Nil,
            };
            let d: nat = match atomic_of(dv) {
                Some(n) => if n <= u32::MAX { n } else { 0 },
                None => 0,
            };
            Some((expr, as_i32(d)))
        },
    }
}

/// Reading `v` as a path and following it from `root`, `n` times over; a number or
/// the empty value is no path, and a walk that fails is an error.
pub open spec fn deref_val(root: Val, v: Val, n: nat) -> Result<Val, InterpError>
    decreases n,
{
    if n == 0 {
        Ok(v)
    } else {
        match deref_val(root, v, (n - 1) as nat) {
            Err(e) => Err(e),
            Ok(u) => if is_number_or_empty(u) {
                Err(InterpError::NotAPath)
            } else {
                walk_res(root, path_items(u))
            },
        }
    }
}

/// The number of times a loop over `0..d` runs.
pub open spec fn times(d: int) -> nat {
    if d > 0 { d as nat } else { 0 }
}

/// Running the program `prog` against `root`: its statements are the values under
/// the unary keys `0, 1, ...`, up to the first missing one.
pub open spec fn exec_sem(root: Val, prog: Val, fuel: nat) -> Step
    decreases fuel, 7nat, 0nat,
{
    match prog {
        Val::Nil => Step::Stop(AbortV::MalformedProgram),
        Val::Node(s) => exec_from(root, s, 0, fuel),
    }
}

/// Running the statements from number `i` on.
pub open spec fn exec_from(root: Val, s: Seq<(Val, Val)>, i: nat, fuel: nat) -> Step
    decreases fuel, 6nat, (u32::MAX + 1 - i) as nat,
{
    if i > u32::MAX {
        Step::Done(root, Seq::empty(), Ok(()))
    } else {
        match lookup(s, atomic_val(i)) {
            None => Step::Done(root, Seq::empty(), Ok(())),
            Some(stmt) => if i == u32::MAX {
                Step::Stop(AbortV::StatementIndexOverflow)
            } else {
                match stmt_sem(root, stmt, fuel) {
                    Step::Stop(a) => Step::Stop(a),
                    Step::Done(r2, d, _) => then_log(d, exec_from(r2, s, i + 1, fuel)),
                }
            },
        }
    }
}

/// Running one statement: a map holding its two sides under the unary keys `0` and
/// `1`; an error is reported and the run goes on, a malformed statement stops it.
pub open spec fn stmt_sem(root: Val, stmt: Val, fuel: nat) -> Step
    decreases fuel, 5nat, 0nat,
{
    match stmt {
        Val::Nil => Step::Stop(AbortV::MalformedStatement),
        Val::Node(st) => match lookup(st, Val::Nil) {
            None => Step::Stop(AbortV::MalformedStatement),
            Some(lp) => match lookup(st, atomic_val(1)) {
                None => Step::Stop(AbortV::MalformedStatement),
                Some(rp) => match do_set_sem(root, lp, rp, fuel) {
                    Step::Stop(a) => Step::Stop(a),
                    Step::Done(r2, d, res) => match res {
                        Err(e) => Step::Done(r2, d.push(DiagV::RuntimeError(stmt, e)), Ok(())),
                        Ok(()) => Step::Done(r2, d, Ok(())),
                    },
                },
            },
        },
    }
}

/// Running an assignment: both sides are dereferenced as often as their depth says,
/// then the right side is written at the left side; a failed dereference is an error
/// that leaves the root as it was.
pub open spec fn do_set_sem(root: Val, lp: Val, rp: Val, fuel: nat) -> Step
    decreases fuel, 4nat, 0nat,
{
    match extract(lp) {
        None => Step::Stop(AbortV::MalformedStatement),
        Some((lhs, ld)) => match extract(rp) {
            None => Step::Stop(AbortV::MalformedStatement),
            Some((rhs, rd)) => match deref_val(root, lhs, times(ld)) {
                Err(e) => Step::Done(root, Seq::empty(), Err(e)),
                Ok(path) => match deref_val(root, rhs, times(rd)) {
                    Err(e) => Step::Done(root, Seq::empty(), Err(e)),
                    Ok(val) => assign_sem(root, path, val, fuel),
                },
            },
        },
    }
}

/// Writing `val` at `path`: the empty value removes the entry, anything else is
/// written and may fire an operation.
pub open spec fn assign_sem(root: Val, path: Val, val: Val, fuel: nat) -> Step
    decreases fuel, 3nat, 0nat,
{
    let comps = path_items(path);
    if comps.len() == 0 {
        Step::Stop(AbortV::CannotReplaceRoot)
    } else {
        match check_path(comps) {
            Some(a) => Step::Stop(a),
            None => match check_value(comps, val) {
                Some(a) => Step::Stop(a),
                None => if val == Val::Nil {
                    Step::Done(remove_val(root, comps), Seq::empty(), Ok(()))
                } else {
                    let r2 = write_val(root, comps, val);
                    match fire_target(comps, val) {
                        None => Step::Done(r2, Seq::empty(), Ok(())),
                        Some(name) => fire_sem(r2, name, fuel),
                    }
                },
            },
        }
    }
}

/// Firing the operation `name`: its arguments are read at `.ops.<name>.args.` and
/// what it returns is written at `.ops.<name>.return.`.
pub open spec fn fire_sem(root: Val, name: Seq<char>, fuel: nat) -> Step
    decreases fuel, 2nat, 0nat,
{
    if fuel == 0 {
        Step::Stop(AbortV::DepthExceeded)
    } else {
        match op_named(name) {
            None => Step::Stop(AbortV::UnknownOp(name)),
            Some(op) => {
                let args = walk_val(root, path_items(path_of(seq![name_ops(), name, name_args()])));
                match op_sem(op, root, args, (fuel - 1) as nat) {
                    OpStep::Stop(a) => Step::Stop(a),
                    OpStep::Done(r2, d, res) => match res {
                        Err(e) => Step::Done(r2, d, Err(e)),
                        Ok(result) => then_log(
                            d,
                            assign_sem(r2, path_of(seq![name_ops(), name, name_return()]), result, (fuel - 1) as nat),
                        ),
                    },
                }
            },
        }
    }
}

/// Running an operation on its arguments.
pub open spec fn op_sem(op: Op, root: Val, args: Val, fuel: nat) -> OpStep
    decreases fuel, 9nat, 0nat,
{
    match op {
        Op::Add => crate::ops::add_sem(root, args),
        Op::Run => match exec_sem(root, lookup_key(args, crate::ops::name_program()), fuel) {
            Step::Stop(a) => OpStep::Stop(a),
            Step::Done(r2, d, res) => match res {
                Err(e) => OpStep::Done(r2, d, Err(e)),
                Ok(()) => OpStep::Done(r2, d, Ok(int_val(0))),
            },
        },
    }
}

/// The path of the given names.
pub fn build_path(components: &Vec<Vec<char>>) -> (r: V)
    ensures
        r@ == path_of(Seq::new(components@.len(), |i: int| components@[i]@)),
{
    let ghost names = Seq::new(components@.len(), |i: int| components@[i]@);
    let n = components.len();
    let mut items: Vec<V> = Vec::new();
    let mut i: usize = 0;
    while i < n
        invariant
            n == components@.len(),
            names == Seq::new(components@.len(), |i: int| components@[i]@),
            i <= n,
            views(items@) == Seq::new(names.len(), |j: int| str_val(names[j])).take(i as int),
        decreases n - i,
    {
        let x = chars_to_value(&components[i]);
        let ghost before = items@;
        items.push(x);
        proof {
            crate::value::lemma_views_push(before, x);
            assert(Seq::new(names.len(), |j: int| str_val(names[j])).take(i + 1) =~= Seq::new(names.len(), |j: int| str_val(names[j])).take(i as int).push(x@));
        }
        i = i + 1;
    }
    proof {
        assert(Seq::new(names.len(), |j: int| str_val(names[j])).take(n as int) =~= Seq::new(names.len(), |j: int| str_val(names[j])));
    }
    V::index_list(items)
}

/// A copy of a character list.
fn copy_chars(cs: &Vec<char>) -> (r: Vec<char>)
    ensures
        r@ == cs@,
{
    let mut out: Vec<char> = Vec::new();
    let mut i: usize = 0;
    while i < cs.len()
        invariant
            i <= cs@.len(),
            out@ == cs@.take(i as int),
        decreases cs@.len() - i,
    {
        out.push(cs[i]);
        proof {
            assert(out@ =~= cs@.take(i + 1));
        }
        i = i + 1;
    }
    proof {
        assert(cs@.take(cs@.len() as int) =~= cs@);
    }
    out
}

/// The path `.ops.<name>.<last>.`.
fn op_path(name: &Vec<char>, last: &str) -> (r: V)
    ensures
        r@ == path_of(seq![name_ops(), name@, last@]),
{
    proof {
        reveal_strlit("ops");
        assert("ops"@ =~= name_ops());
    }
    let mut comps: Vec<Vec<char>> = Vec::new();
    comps.push(chars_of("ops"));
    comps.push(copy_chars(name));
    comps.push(chars_of(last));
    let r = build_path(&comps);
    proof {
        assert(Seq::new(comps@.len(), |i: int| comps@[i]@) =~= seq![name_ops(), name@, last@]);
    }
    r
}

/// Why a write at `components` stops the run, if it does: a write may go to `.var.`
/// anything, or to `.ops.<registered op>.` anything.
pub fn path_refusal(components: &Vec<V>) -> (r: Result<(), Abort>)
    requires
        components@.len() >= 1,
    ensures
        match check_path(views(components@)) {
            None => r is Ok,
            Some(a) => r matches Err(e) && e@ == a,
        },
{
    proof {
        reveal_strlit("ops");
        reveal_strlit("var");
        assert("ops"@ =~= name_ops());
        assert("var"@ =~= name_var());
    }
    let first = match value_as_string(&components[0]) {
        None => return Err(Abort::NamespaceNotString),
        Some(f) => f,
    };
    if same_chars(&first, "ops") {
        if components.len() < 2 {
            return Err(Abort::OpsDirect);
        }
        let opname = match value_as_string(&components[1]) {
            None => return Err(Abort::OpNameNotString),
            Some(n) => n,
        };
        if op_by_chars(&opname).is_none() {
            return Err(Abort::UnknownOp(opname));
        }
        Ok(())
    } else if same_chars(&first, "var") {
        Ok(())
    } else {
        Err(Abort::ForbiddenNamespace(first))
    }
}

/// Checks that a trigger is set to the empty map or the number `0`.
pub fn validate_trigger_value(val: &V) -> (r: Result<(), Abort>)
    ensures
        match trigger_check(val@) {
            None => r is Ok,
            Some(a) => r matches Err(e) && e@ == a,
        },
{
    let ok = match &val.0 {
        Some(m) => {
            proof {
                lemma_view_node(*m);
            }
            m.is_empty() || match val.try_to_prim::<u32>() {
                Some(n) => n == 0,
                None => false,
            }
        },
        None => false,
    };
    if !ok {
        return Err(Abort::BadTrigger(val.clone()));
    }
    Ok(())
}

/// Whether the string a value spells is `name`.
fn spells(v: &V, name: &str) -> (r: bool)
    ensures
        r == (string_of(v@) == Some(name@)),
{
    match value_as_string(v) {
        Some(s) => same_chars(&s, name),
        None => false,
    }
}

/// Why writing `val` at `components` stops the run, if it does: under `.ops.`, an
/// operation and its trigger are never removed, and a trigger must be the empty map
/// or the number `0`.
pub fn value_refusal(components: &Vec<V>, val: &V) -> (r: Result<(), Abort>)
    requires
        components@.len() >= 1,
    ensures
        match check_value(views(components@), val@) {
            None => r is Ok,
            Some(a) => r matches Err(e) && e@ == a,
        },
{
    proof {
        reveal_strlit("ops");
        reveal_strlit("trigger");
        assert("ops"@ =~= name_ops());
        assert("trigger"@ =~= name_trigger());
    }
    if !spells(&components[0], "ops") {
        return Ok(());
    }
    if val.0.is_none() {
        if components.len() == 2 {
            return Err(Abort::DeleteOp);
        }
        if components.len() == 3 && spells(&components[2], "trigger") {
            return Err(Abort::RemoveTrigger);
        }
        return Ok(());
    }
    if components.len() == 3 && spells(&components[2], "trigger") {
        return validate_trigger_value(val);
    }
    if components.len() == 2 {
        if let Some(m) = &val.0 {
            proof {
                lemma_view_node(*m);
            }
            if let Some(trigger_val) = m.get(&str_to_value("trigger")) {
                return validate_trigger_value(trigger_val);
            }
        }
    }
    Ok(())
}

/// Checks where a write may go. Only a path that passes the check may be written, so
/// callers test it first with `path_refusal`, which gives the reason a run stops.
pub fn check_write_path(components: &Vec<V>)
    requires
        components@.len() >= 1,
        check_path(views(components@)) is None,
{
}

/// Checks what may be written under `.ops.`. Only a write that passes the check may
/// happen, so callers test it first with `value_refusal`, which gives the reason a run stops.
pub fn check_write_value(components: &Vec<V>, val: &V)
    requires
        components@.len() >= 1,
        check_value(views(components@), val@) is None,
{
}

/// Fires the operation a write names, if it names one.
pub fn maybe_fire(root: &mut V, components: &Vec<V>, written: &V, fuel: u32, log: &mut Vec<Diag>) -> (r: Result<Result<(), InterpError>, Abort>)
    ensures
        follows(r, final(root)@, old(log)@, final(log)@, match fire_target(views(components@), written@) {
            None => Step::Done(old(root)@, Seq::empty(), Ok(())),
            Some(name) => fire_sem(old(root)@, name, fuel as nat),
        }),
    decreases fuel, 2nat, 1nat,
{
    proof {
        reveal_strlit("ops");
        reveal_strlit("trigger");
        assert("ops"@ =~= name_ops());
        assert("trigger"@ =~= name_trigger());
        assert(diag_views(log@) + Seq::empty() =~= diag_views(log@));
    }
    if components.len() < 2 {
        return Ok(Ok(()));
    }
    if !spells(&components[0], "ops") {
        return Ok(Ok(()));
    }
    let opname = match value_as_string(&components[1]) {
        None => return Ok(Ok(())),
        Some(n) => n,
    };
    let by_trigger_path = components.len() == 3 && spells(&components[2], "trigger");
    let by_record = components.len() == 2 && match &written.0 {
        Some(m) => {
            proof {
                lemma_view_node(*m);
            }
            m.contains_key(&str_to_value("trigger"))
        },
        None => false,
    };
    if by_trigger_path || by_record {
        return fire_op(root, &opname, fuel, log);
    }
    Ok(Ok(()))
}

/// Fires operation `opname`: reads its arguments, runs it, and writes what it returns.
#[verifier::rlimit(40)]
pub fn fire_op(root: &mut V, opname: &Vec<char>, fuel: u32, log: &mut Vec<Diag>) -> (r: Result<Result<(), InterpError>, Abort>)
    ensures
        follows(r, final(root)@, old(log)@, final(log)@, fire_sem(old(root)@, opname@, fuel as nat)),
    decreases fuel, 2nat, 0nat,
{
    proof {
        reveal_strlit("args");
        reveal_strlit("return");
        assert("args"@ =~= name_args());
        assert("return"@ =~= name_return());
    }
    if fuel == 0 {
        return Err(Abort::DepthExceeded);
    }
    let op = match op_by_chars(opname) {
        None => return Err(Abort::UnknownOp(copy_chars(opname))),
        Some(op) => op,
    };
    let args_path = op_path(opname, "args");
    let args = walk_or_nil(root, &iterate_marked(&args_path));
    let ghost log0 = log@;
    let ghost root0 = root@;
    let ghost ost = op_sem(op, root0, args@, (fuel - 1) as nat);
    proof {
        assert(fire_sem(root0, opname@, fuel as nat) == match ost {
            OpStep::Stop(a) => Step::Stop(a),
            OpStep::Done(r2, d, res) => match res {
                Err(e) => Step::Done(r2, d, Err(e)),
                Ok(result) => then_log(
                    d,
                    assign_sem(r2, path_of(seq![name_ops(), opname@, name_return()]), result, (fuel - 1) as nat),
                ),
            },
        });
    }
    let result = match call_op(op, root, &args, fuel - 1, log) {
        Err(a) => return Err(a),
        Ok(Err(e)) => return Ok(Err(e)),
        Ok(Ok(v)) => v,
    };
    let ghost log1 = log@;
    let ghost root1 = root@;
    let return_path = op_path(opname, "return");
    let ghost d = ost->Done_1;
    proof {
        assert(ost is Done);
        assert(root1 == ost->Done_0);
        assert(diag_views(log1) == diag_views(log0) + d);
    }
    let ghost asem = assign_sem(root1, return_path@, result@, (fuel - 1) as nat);
    proof {
        let names = seq![name_ops(), opname@, name_return()];
        crate::laws::law_path_reads_back(Seq::new(names.len(), |i: int| str_val(names[i])));
    }
    let r = assign(root, &return_path, result, fuel - 1, log);
    proof {
        match asem {
            Step::Done(_, d3, _) => {
                assert(diag_views(log0) + (d + d3) =~= diag_views(log0) + d + d3);
            },
            Step::Stop(_) => {},
        }
    }
    r
}

/// Writes `val` at `path`, or removes the entry there when `val` is empty; a write may
/// fire an operation. The path must name a place below the root: callers test for the
/// empty path first, which stops the run.
pub fn assign(root: &mut V, path: &V, val: V, fuel: u32, log: &mut Vec<Diag>) -> (r: Result<Result<(), InterpError>, Abort>)
    requires
        path_items(path@).len() > 0,
    ensures
        follows(r, final(root)@, old(log)@, final(log)@, assign_sem(old(root)@, path@, val@, fuel as nat)),
    decreases fuel, 3nat, 0nat,
{
    proof {
        assert(diag_views(log@) + Seq::empty() =~= diag_views(log@));
    }
    let components = iterate_marked(path);
    match path_refusal(&components) {
        Err(a) => return Err(a),
        Ok(()) => {},
    }
    check_write_path(&components);
    match value_refusal(&components, &val) {
        Err(a) => return Err(a),
        Ok(()) => {},
    }
    check_write_value(&components, &val);
    if val.0.is_none() {
        remove_at(root, &components);
        return Ok(Ok(()));
    }
    let written = val.clone();
    write_path(root, &components, val);
    maybe_fire(root, &components, &written, fuel, log)
}

/// One side of a statement: its expression and its depth.
pub fn extract_pair_value(pair: &V) -> (r: Option<(V, i32)>)
    ensures
        match extract(pair@) {
            None => r is None,
            Some((expr, d)) => r matches Some((x, dd)) && x@ == expr && dd as int == d,
        },
{
    let m = match &pair.0 {
        None => return None,
        Some(m) => m,
    };
    proof {
        lemma_view_node(*m);
    }
    let expr = match m.get(&V::atomic(0)) {
        Some(x) => x.clone(),
        None => V(None),
    };
    let depth: u32 = match m.get(&V::atomic(1)) {
        Some(x) => match x.try_atomic_to_u32() {
            Some(d) => d,
            None => 0,
        },
        None => match V(None).try_atomic_to_u32() {
            Some(d) => d,
            None => 0,
        },
    };
    let d = depth as i32;
    assert(d == if depth < 0x8000_0000 { depth as int } else { depth - 0x1_0000_0000 }) by (bit_vector)
        requires d == depth as i32;
    Some((expr, d))
}

/// Reads `v` as a path and follows it from `root`, `n` times over.
fn deref(root: &V, v: V, n: i32) -> (r: Result<V, InterpError>)
    ensures
        match deref_val(root@, v@, times(n as int)) {
            Ok(x) => r matches Ok(y) && y@ == x,
            Err(e) => r == Err::<V, InterpError>(e),
        },
{
    let mut cur = v;
    let mut k: i32 = 0;
    while k < n
        invariant
            0 <= k,
            k as int <= times(n as int),
            deref_val(root@, v@, k as nat) == Ok::<Val, InterpError>(cur@),
        decreases n - k,
    {
        if is_number_or_empty_exec(&cur) {
            proof {
                lemma_deref_err(root@, v@, (k + 1) as nat, times(n as int));
            }
            return Err(InterpError::NotAPath);
        }
        match walk(root, &iterate_marked(&cur)) {
            Ok(x) => {
                cur = x;
            },
            Err(e) => {
                proof {
                    lemma_deref_err(root@, v@, (k + 1) as nat, times(n as int));
                }
                return Err(e);
            },
        }
        k = k + 1;
    }
    proof {
        assert(k as nat == times(n as int));
    }
    Ok(cur)
}

/// Once a dereference fails, dereferencing more times fails the same way.
pub proof fn lemma_deref_err(root: Val, v: Val, k: nat, n: nat)
    requires
        k <= n,
        deref_val(root, v, k) is Err,
    ensures
        deref_val(root, v, n) == deref_val(root, v, k),
    decreases n,
{
    if k < n {
        lemma_deref_err(root, v, k, (n - 1) as nat);
    }
}

/// Runs one assignment statement given its two sides.
pub fn do_set(root: &mut V, lhs_pair: &V, rhs_pair: &V, fuel: u32, log: &mut Vec<Diag>) -> (r: Result<Result<(), InterpError>, Abort>)
    ensures
        follows(r, final(root)@, old(log)@, final(log)@, do_set_sem(old(root)@, lhs_pair@, rhs_pair@, fuel as nat)),
    decreases fuel, 4nat, 0nat,
{
    proof {
        assert(diag_views(log@) + Seq::empty() =~= diag_views(log@));
    }
    let (lhs0, ld) = match extract_pair_value(lhs_pair) {
        None => return Err(Abort::MalformedStatement),
        Some(p) => p,
    };
    let (rhs0, rd) = match extract_pair_value(rhs_pair) {
        None => return Err(Abort::MalformedStatement),
        Some(p) => p,
    };
    let lhs = match deref(root, lhs0, ld) {
        Err(e) => return Ok(Err(e)),
        Ok(x) => x,
    };
    let rhs = match deref(root, rhs0, rd) {
        Err(e) => return Ok(Err(e)),
        Ok(x) => x,
    };
    if iterate_marked(&lhs).len() == 0 {
        return Err(Abort::CannotReplaceRoot);
    }
    assign(root, &lhs, rhs, fuel, log)
}

/// Runs one statement, reporting it when it fails; a malformed statement stops the run.
fn exec_statement(root: &mut V, val: &V, fuel: u32, log: &mut Vec<Diag>) -> (r: Result<(), Abort>)
    ensures
        match stmt_sem(old(root)@, val@, fuel as nat) {
            Step::Done(r2, d, _) => r is Ok && final(root)@ == r2 && diag_views(final(log)@) == diag_views(old(log)@) + d,
            Step::Stop(a) => r matches Err(e) && e@ == a,
        },
    decreases fuel, 5nat, 1nat,
{
    let ghost log_before = log@;
    let ghost root_before = root@;
    let ghost st = stmt_sem(root@, val@, fuel as nat);
    let stmt = match &val.0 {
        None => return Err(Abort::MalformedStatement),
        Some(stmt) => stmt,
    };
    proof {
        lemma_view_node(*stmt);
    }
    let lhs_pair = match stmt.get(&V::atomic(0)) {
        None => return Err(Abort::MalformedStatement),
        Some(p) => p,
    };
    let rhs_pair = match stmt.get(&V::atomic(1)) {
        None => return Err(Abort::MalformedStatement),
        Some(p) => p,
    };
    let ghost ds = do_set_sem(root_before, lhs_pair@, rhs_pair@, fuel as nat);
    proof {
        assert(st == match ds {
            Step::Stop(a) => Step::Stop(a),
            Step::Done(r2, d, res) => match res {
                Err(e) => Step::Done(r2, d.push(DiagV::RuntimeError(val@, e)), Ok(())),
                Ok(()) => Step::Done(r2, d, Ok(())),
            },
        });
    }
    match do_set(root, lhs_pair, rhs_pair, fuel, log) {
        Err(a) => {
            return Err(a);
        },
        Ok(Err(e)) => {
            let ghost lb = log@;
            log.push(Diag::RuntimeError(val.clone(), e));
            proof {
                lemma_diag_push(lb, Diag::RuntimeError(*val, e));
                let d0 = ds->Done_1;
                assert(diag_views(lb) == diag_views(log_before) + d0);
                assert(diag_views(log@) =~= diag_views(log_before) + d0.push(DiagV::RuntimeError(val@, e)));
            }
        },
        Ok(Ok(())) => {
            proof {
                assert(ds is Done);
            }
        },
    }
    Ok(())
}

/// Runs the statements of `instructions` in order against `root`; failed statements
/// are reported in `log`, and a malformed statement or program stops the run.
pub fn exec(root: &mut V, instructions: &V, fuel: u32, log: &mut Vec<Diag>) -> (r: Result<Result<(), InterpError>, Abort>)
    ensures
        follows(r, final(root)@, old(log)@, final(log)@, exec_sem(old(root)@, instructions@, fuel as nat)),
    decreases fuel, 7nat, 0nat,
{
    proof {
        assert(diag_views(log@) + Seq::empty() =~= diag_views(log@));
    }
    let list = match &instructions.0 {
        None => return Err(Abort::MalformedProgram),
        Some(l) => l,
    };
    proof {
        lemma_view_node(*list);
    }
    let ghost s = list@;
    let ghost log0 = log@;
    let ghost mut acc: Seq<DiagV> = Seq::empty();
    let mut i: u32 = 0;
    proof {
        lemma_then_log(Seq::empty(), Seq::empty(), exec_from(root@, s, 0, fuel as nat));
    }
    loop
        invariant
            s == list@,
            exec_sem(old(root)@, instructions@, fuel as nat) == then_log(acc, exec_from(root@, s, i as nat, fuel as nat)),
            diag_views(log@) == diag_views(log0) + acc,
            log0 == old(log)@,
        decreases u32::MAX - i,
    {
        let val = match list.get(&V::atomic(i)) {
            None => {
                proof {
                    assert(acc + Seq::empty() =~= acc);
                }
                return Ok(Ok(()));
            },
            Some(v) => v,
        };
        if i == u32::MAX {
            return Err(Abort::StatementIndexOverflow);
        }
        let ghost root_before = root@;
        let ghost log_before = log@;
        let ghost st = stmt_sem(root@, val@, fuel as nat);
        proof {
            assert(exec_from(root_before, s, i as nat, fuel as nat) == match st {
                Step::Stop(a) => Step::Stop(a),
                Step::Done(r2, d, _) => then_log(d, exec_from(r2, s, (i + 1) as nat, fuel as nat)),
            });
        }
        match exec_statement(root, val, fuel, log) {
            Err(a) => {
                return Err(a);
            },
            Ok(()) => {},
        }
        proof {
            match st {
                Step::Done(r2, d, _) => {
                    assert(root@ == r2);
                    assert(diag_views(log@) == diag_views(log_before) + d);
                    assert(diag_views(log@) =~= diag_views(log0) + (acc + d));
                    lemma_then_log(acc, d, exec_from(r2, s, (i + 1) as nat, fuel as nat));
                    acc = acc + d;
                },
                Step::Stop(_) => {},
            }
        }
        i = i + 1;
    }
}

/// Writes `val` at the path of the given names below `root`, creating maps as needed.
pub fn ensure_path(root: &mut V, components: &Vec<Vec<char>>, val: V)
    ensures
        final(root)@ == write_val(old(root)@, Seq::new(components@.len(), |i: int| str_val(components@[i]@)), val@),
{
    let n = components.len();
    let mut comps: Vec<V> = Vec::new();
    let mut i: usize = 0;
    while i < n
        invariant
            n == components@.len(),
            i <= n,
            views(comps@) == Seq::new(components@.len(), |j: int| str_val(components@[j]@)).take(i as int),
        decreases n - i,
    {
        let x = chars_to_value(&components[i]);
        let ghost before = comps@;
        comps.push(x);
        proof {
            crate::value::lemma_views_push(before, x);
            assert(Seq::new(components@.len(), |j: int| str_val(components@[j]@)).take(i + 1) =~= Seq::new(components@.len(), |j: int| str_val(components@[j]@)).take(i as int).push(x@));
        }
        i = i + 1;
    }
    proof {
        assert(Seq::new(components@.len(), |j: int| str_val(components@[j]@)).take(n as int) =~= Seq::new(components@.len(), |j: int| str_val(components@[j]@)));
    }
    write_path(root, &comps, val);
}

/// Gives every registered operation an empty trigger at `.ops.<name>.trigger.`.
pub fn preinit_ops(root: &mut V)
    ensures
        final(root)@ == write_val(
            write_val(old(root)@, seq![str_val(name_ops()), str_val(crate::ops::name_add()), str_val(name_trigger())], Val::Node(Seq::empty())),
            seq![str_val(name_ops()), str_val(crate::ops::name_run()), str_val(name_trigger())],
            Val::Node(Seq::empty()),
        ),
{
    proof {
        reveal_strlit("ops");
        reveal_strlit("trigger");
        assert("ops"@ =~= name_ops());
        assert("trigger"@ =~= name_trigger());
    }
    let names = crate::ops::registered_op_names();
    let mut k: usize = 0;
    let ghost r0 = root@;
    while k < names.len()
        invariant
            names@.len() == 2,
            names@[0]@ == crate::ops::name_add(),
            names@[1]@ == crate::ops::name_run(),
            k <= 2,
            k == 0 ==> root@ == r0,
            k == 1 ==> root@ == write_val(r0, seq![str_val(name_ops()), str_val(crate::ops::name_add()), str_val(name_trigger())], Val::Node(Seq::empty())),
            k == 2 ==> root@ == write_val(
                write_val(r0, seq![str_val(name_ops()), str_val(crate::ops::name_add()), str_val(name_trigger())], Val::Node(Seq::empty())),
                seq![str_val(name_ops()), str_val(crate::ops::name_run()), str_val(name_trigger())],
                Val::Node(Seq::empty()),
            ),
            r0 == old(root)@,
        decreases 2 - k,
    {
        proof {
            reveal_strlit("ops");
            reveal_strlit("trigger");
            assert("ops"@ =~= name_ops());
            assert("trigger"@ =~= name_trigger());
        }
        let mut comps: Vec<Vec<char>> = Vec::new();
        comps.push(chars_of("ops"));
        comps.push(chars_of(names[k]));
        comps.push(chars_of("trigger"));
        let e = L::new();
        proof {
            lemma_view_node(e);
            assert(comps@[0]@ == name_ops());
            assert(comps@[1]@ == names@[k as int]@);
            assert(comps@[2]@ == name_trigger());
            assert(Seq::new(comps@.len(), |i: int| str_val(comps@[i]@)) =~= seq![str_val(name_ops()), str_val(names@[k as int]@), str_val(name_trigger())]);
        }
        ensure_path(root, &comps, V(Some(e)));
        k = k + 1;
    }
}

} // verus!
