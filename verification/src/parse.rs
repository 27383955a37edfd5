//! The source syntax, read into values.
//!
//! A file is either `lines!` followed by statements and values, or a single
//! value. Whitespace may stand between any two tokens.
use vstd::prelude::*;
use crate::order::{Val, collect_entries};
use crate::value::{V, L, lemma_view_node, views, entries_of};
use crate::encode::{atomic_val, prim_val, sys_list_pairs, index_val, Primitive};
use crate::text::char_vals;

verus! {

/// What stops a well-formed source from being turned into a value.
pub enum BuildErr {
    /// A number that does not fit its type.
    BadNumber,
    /// A backslash followed by a character that names no escape.
    UnknownEscape(char),
}

/// Why a source is not read.
pub enum SourceError {
    /// The text does not follow the syntax.
    Syntax,
    /// The text follows the syntax but a literal in it cannot be built.
    Build(BuildErr),
}

/// How numbers, the lists that hold arrays and strings, and paths are written as values.
pub trait Encoding: Sized {
    /// The number with bit pattern `u`, of `w` bits.
    spec fn num(u: nat, w: nat) -> Val;

    /// The list of `items`, as arrays and strings are written.
    spec fn marked(items: Seq<Val>) -> Val;

    /// The number `x`.
    fn num_of<T: Primitive>(x: T) -> (r: V)
        ensures
            r@ == Self::num(x.unsigned(), T::width()),
    ;

    /// The list of `items`.
    fn marked_list(items: Vec<V>) -> (r: V)
        ensures
            r@ == Self::marked(views(items@)),
    ;

    /// The path of the components `items`, as a dot path writes it.
    spec fn path(items: Seq<Val>) -> Val;

    /// The path of the components `items`.
    fn path_list(items: Vec<V>) -> (r: V)
        ensures
            r@ == Self::path(views(items@)),
    ;

    /// The string of the characters `cs`: the list of their numbers.
    fn string(cs: &Vec<char>) -> (r: V)
        ensures
            r@ == Self::marked(Seq::new(cs@.len(), |i: int| Self::num((cs@[i] as u32) as nat, 32))),
    ;
}

/// A string: the list of its characters, each a 32-bit number.
pub open spec fn str_enc<E: Encoding>(cs: Seq<char>) -> Val {
    E::marked(Seq::new(cs.len(), |i: int| E::num((cs[i] as u32) as nat, 32)))
}

/// Numbers as their set bits with their width under the empty key; lists,
/// strings and paths as maps of their items, each under its position, a 32-bit number.
pub struct Flagged;

impl Encoding for Flagged {
    open spec fn num(u: nat, w: nat) -> Val {
        prim_val(u, w, w)
    }

    open spec fn marked(items: Seq<Val>) -> Val {
        index_val(items)
    }

    fn num_of<T: Primitive>(x: T) -> (r: V) {
        V::from_prim(x)
    }

    fn marked_list(items: Vec<V>) -> (r: V) {
        V::index_list(items)
    }

    open spec fn path(items: Seq<Val>) -> Val {
        index_val(items)
    }

    fn path_list(items: Vec<V>) -> (r: V) {
        V::index_list(items)
    }

    fn string(cs: &Vec<char>) -> (r: V) {
        proof {
            assert(char_vals(cs@) =~= Seq::new(cs@.len(), |i: int| Self::num((cs@[i] as u32) as nat, 32)));
        }
        crate::text::chars_to_value(cs)
    }
}


/// Whether `c` is whitespace.
pub open spec fn is_ws(c: char) -> bool {
    c == ' ' || c == '\t' || c == '\r' || c == '\n'
}

/// Whether `c` is an ASCII digit.
pub open spec fn is_digit(c: char) -> bool {
    '0' <= c && c <= '9'
}

/// Whether `c` is an ASCII letter or digit.
pub open spec fn is_alnum(c: char) -> bool {
    is_digit(c) || ('a' <= c && c <= 'z') || ('A' <= c && c <= 'Z')
}

/// The position after the whitespace at `p`.
pub open spec fn skip_ws(s: Seq<char>, p: nat) -> nat
    decreases s.len() - p,
{
    if p < s.len() && is_ws(s[p as int]) {
        skip_ws(s, p + 1)
    } else {
        p
    }
}

/// Skipping whitespace moves forward, stays in the text, and stops at a non-space.
pub proof fn lemma_skip_ws(s: Seq<char>, p: nat)
    ensures
        p <= skip_ws(s, p),
        p <= s.len() ==> skip_ws(s, p) <= s.len(),
        skip_ws(s, p) < s.len() ==> !is_ws(s[skip_ws(s, p) as int]),
    decreases s.len() - p,
{
    if p < s.len() && is_ws(s[p as int]) {
        lemma_skip_ws(s, p + 1);
    }
}

/// The end of the run of digits at `p`.
pub open spec fn digits_end(s: Seq<char>, p: nat) -> nat
    decreases s.len() - p,
{
    if p < s.len() && is_digit(s[p as int]) {
        digits_end(s, p + 1)
    } else {
        p
    }
}

/// The end of the run of ASCII letters and digits at `p`.
pub open spec fn alnum_end(s: Seq<char>, p: nat) -> nat
    decreases s.len() - p,
{
    if p < s.len() && is_alnum(s[p as int]) {
        alnum_end(s, p + 1)
    } else {
        p
    }
}

/// The decimal number written by the digits `s[a..b]`.
pub open spec fn digits_value(s: Seq<char>, a: nat, b: nat) -> nat
    decreases b,
{
    if b <= a {
        0
    } else {
        digits_value(s, a, (b - 1) as nat) * 10 + ((s[b - 1int] as u32) - 48) as nat
    }
}

/// The value of a number literal `s[q..e]`: a 32-bit signed number.
pub open spec fn number_val<E: Encoding>(s: Seq<char>, q: nat, e: nat) -> Result<Val, BuildErr> {
    let neg = s[q as int] == '-';
    let n = digits_value(s, if neg { q + 1 } else { q }, e);
    let v: int = if neg { -n } else { n as int };
    if -0x8000_0000 <= v && v < 0x8000_0000 {
        Ok(E::num((if v >= 0 { v } else { v + 0x1_0000_0000 }) as nat, 32))
    } else {
        Err(BuildErr::BadNumber)
    }
}

/// The character an escape letter stands for.
pub open spec fn escape_of(c: char) -> Option<char> {
    if c == 'n' {
        Some('\n')
    } else if c == 't' {
        Some('\t')
    } else if c == 'r' {
        Some('\r')
    } else if c == '0' {
        Some('\0')
    } else if c == '\\' {
        Some('\\')
    } else if c == '\'' {
        Some('\'')
    } else if c == '"' {
        Some('"')
    } else {
        None
    }
}

/// Adds an item to the items built so far; the first error stays.
pub open spec fn push_built<A>(acc: Result<Seq<A>, BuildErr>, item: Result<A, BuildErr>) -> Result<Seq<A>, BuildErr> {
    match acc {
        Err(e) => Err(e),
        Ok(xs) => match item {
            Err(e) => Err(e),
            Ok(x) => Ok(xs.push(x)),
        },
    }
}

/// A system list of the built items.
pub open spec fn sys_val(items: Seq<Val>) -> Val {
    Val::Node(collect_entries(sys_list_pairs(items)))
}

/// A number literal at `q`: an optional minus and at least one digit.
pub open spec fn p_number<E: Encoding>(s: Seq<char>, q: nat) -> Option<(Result<Val, BuildErr>, nat)> {
    let start = if q < s.len() && s[q as int] == '-' { q + 1 } else { q };
    let e = digits_end(s, start);
    if e == start {
        None
    } else {
        Some((number_val::<E>(s, q, e), e))
    }
}

/// A unary number literal at `q`: `*` and digits.
pub open spec fn p_atomic(s: Seq<char>, q: nat) -> Option<(Result<Val, BuildErr>, nat)> {
    let e = digits_end(s, q + 1);
    if e == q + 1 {
        None
    } else {
        let n = digits_value(s, q + 1, e);
        Some((if n <= u32::MAX { Ok(atomic_val(n)) } else { Err(BuildErr::BadNumber) }, e))
    }
}

/// A character literal at `q`: one character or one escape between single quotes.
pub open spec fn p_char<E: Encoding>(s: Seq<char>, q: nat) -> Option<(Result<Val, BuildErr>, nat)> {
    if q + 1 < s.len() && s[q + 1int] == '\\' {
        if q + 3 < s.len() && s[q + 3int] == '\'' {
            Some((
                match escape_of(s[q + 2int]) {
                    Some(c) => Ok(E::num((c as u32) as nat, 32)),
                    None => Err(BuildErr::UnknownEscape(s[q + 2int])),
                },
                q + 4,
            ))
        } else {
            None
        }
    } else if q + 2 < s.len() && s[q + 1int] != '\'' && s[q + 2int] == '\'' {
        Some((Ok(E::num((s[q + 1int] as u32) as nat, 32)), q + 3))
    } else {
        None
    }
}

/// The rest of a string literal from `p`: characters and escapes up to the closing quote.
pub open spec fn p_string_body(s: Seq<char>, p: nat, acc: Result<Seq<char>, BuildErr>) -> Option<(Result<Seq<char>, BuildErr>, nat)>
    decreases s.len() - p,
{
    if p >= s.len() {
        None
    } else if s[p as int] == '\\' && p + 1 < s.len() {
        p_string_body(s, p + 2, push_built(acc, match escape_of(s[p + 1int]) {
            Some(c) => Ok(c),
            None => Err(BuildErr::UnknownEscape(s[p + 1int])),
        }))
    } else if s[p as int] == '"' {
        Some((acc, p + 1))
    } else {
        p_string_body(s, p + 1, push_built(acc, Ok(s[p as int])))
    }
}

/// A string literal at `q`.
pub open spec fn p_string_lit<E: Encoding>(s: Seq<char>, q: nat) -> Option<(Result<Val, BuildErr>, nat)> {
    match p_string_body(s, q + 1, Ok(Seq::empty())) {
        None => None,
        Some((r, e)) => Some((
            match r {
                Ok(cs) => Ok(str_enc::<E>(cs)),
                Err(er) => Err(er),
            },
            e,
        )),
    }
}

/// A bare word at `q`: ASCII letters and digits, read as a string.
pub open spec fn p_word<E: Encoding>(s: Seq<char>, q: nat) -> Option<(Result<Val, BuildErr>, nat)> {
    let e = alnum_end(s, q);
    if e == q {
        None
    } else {
        Some((Ok(str_enc::<E>(s.subrange(q as int, e as int))), e))
    }
}

/// A value at `p`, after any whitespace.
pub open spec fn p_value<E: Encoding>(s: Seq<char>, p: nat) -> Option<(Result<Val, BuildErr>, nat)>
    decreases s.len() - p, 2nat,
{
    let q = skip_ws(s, p);
    proof {
        lemma_skip_ws(s, p);
    }
    if q >= s.len() {
        None
    } else if p_number::<E>(s, q) is Some {
        p_number::<E>(s, q)
    } else if s[q as int] == '*' {
        p_atomic(s, q)
    } else if s[q as int] == '{' {
        p_map::<E>(s, q)
    } else if s[q as int] == '\'' {
        p_char::<E>(s, q)
    } else if s[q as int] == '"' {
        p_string_lit::<E>(s, q)
    } else if s[q as int] == '[' {
        p_array::<E>(s, q)
    } else if s[q as int] == '.' {
        p_dot_path::<E>(s, q)
    } else if is_alnum(s[q as int]) {
        p_word::<E>(s, q)
    } else if s[q as int] == '<' && q + 1 < s.len() && s[q + 1int] == '>' {
        Some((Ok(Val::Nil), q + 2))
    } else {
        None
    }
}

/// More array items after `p`: each a comma and a value.
pub open spec fn p_items_tail<E: Encoding>(s: Seq<char>, p: nat, acc: Result<Seq<Val>, BuildErr>) -> (Result<Seq<Val>, BuildErr>, nat)
    decreases s.len() - p, 3nat,
{
    let k = skip_ws(s, p);
    proof {
        lemma_skip_ws(s, p);
    }
    if k < s.len() && s[k as int] == ',' {
        match p_value::<E>(s, k + 1) {
            Some((r, e)) => if p < e <= s.len() { p_items_tail::<E>(s, e, push_built(acc, r)) } else { (acc, p) },
            None => (acc, p),
        }
    } else {
        (acc, p)
    }
}

/// The closing of a list at `p`: an optional comma, then `close`.
pub open spec fn p_close(s: Seq<char>, p: nat, close: char) -> Option<nat> {
    let k = skip_ws(s, p);
    let p2 = if k < s.len() && s[k as int] == ',' { k + 1 } else { p };
    let k2 = skip_ws(s, p2);
    if k2 < s.len() && s[k2 as int] == close {
        Some(k2 + 1)
    } else {
        None
    }
}

/// An array at `q`: values between brackets, separated by commas.
pub open spec fn p_array<E: Encoding>(s: Seq<char>, q: nat) -> Option<(Result<Val, BuildErr>, nat)>
    decreases s.len() - q, 1nat,
{
    if q >= s.len() {
        None
    } else {
        match p_value::<E>(s, q + 1) {
            Some((r, e)) => if q < e <= s.len() {
                let (acc, e2) = p_items_tail::<E>(s, e, push_built(Ok(Seq::empty()), r));
                match p_close(s, e2, ']') {
                    Some(e3) => Some((
                        match acc {
                            Ok(items) => Ok(E::marked(items)),
                            Err(er) => Err(er),
                        },
                        e3,
                    )),
                    None => None,
                }
            } else {
                None
            },
            None => {
                let k = skip_ws(s, q + 1);
                if k < s.len() && s[k as int] == ']' {
                    Some((Ok(E::marked(Seq::empty())), k + 1))
                } else {
                    None
                }
            },
        }
    }
}

/// A map entry at `p`: a key, a colon and a value.
pub open spec fn p_entry<E: Encoding>(s: Seq<char>, p: nat) -> Option<(Result<(Val, Val), BuildErr>, nat)>
    decreases s.len() - p, 4nat,
{
    match p_value::<E>(s, p) {
        Some((k, e)) => {
            let c = skip_ws(s, e);
            proof {
                lemma_skip_ws(s, e);
            }
            if p <= e && c < s.len() && s[c as int] == ':' {
                match p_value::<E>(s, c + 1) {
                    Some((v, e2)) => Some((
                        match k {
                            Err(er) => Err(er),
                            Ok(kv) => match v {
                                Err(er) => Err(er),
                                Ok(vv) => Ok((kv, vv)),
                            },
                        },
                        e2,
                    )),
                    None => None,
                }
            } else {
                None
            }
        },
        None => None,
    }
}

/// More map entries after `p`: each a comma and an entry.
pub open spec fn p_entries_tail<E: Encoding>(s: Seq<char>, p: nat, acc: Result<Seq<(Val, Val)>, BuildErr>) -> (Result<Seq<(Val, Val)>, BuildErr>, nat)
    decreases s.len() - p, 5nat,
{
    let k = skip_ws(s, p);
    proof {
        lemma_skip_ws(s, p);
    }
    if k < s.len() && s[k as int] == ',' {
        match p_entry::<E>(s, k + 1) {
            Some((r, e)) => if p < e <= s.len() { p_entries_tail::<E>(s, e, push_built(acc, r)) } else { (acc, p) },
            None => (acc, p),
        }
    } else {
        (acc, p)
    }
}

/// A map literal at `q`: entries between braces, separated by commas.
pub open spec fn p_map<E: Encoding>(s: Seq<char>, q: nat) -> Option<(Result<Val, BuildErr>, nat)>
    decreases s.len() - q, 1nat,
{
    if q >= s.len() {
        None
    } else {
        match p_entry::<E>(s, q + 1) {
            Some((r, e)) => if q < e <= s.len() {
                let (acc, e2) = p_entries_tail::<E>(s, e, push_built(Ok(Seq::empty()), r));
                match p_close(s, e2, '}') {
                    Some(e3) => Some((
                        match acc {
                            Ok(pairs) => Ok(Val::Node(collect_entries(pairs))),
                            Err(er) => Err(er),
                        },
                        e3,
                    )),
                    None => None,
                }
            } else {
                None
            },
            None => {
                let k = skip_ws(s, q + 1);
                if k < s.len() && s[k as int] == '}' {
                    Some((Ok(Val::Node(collect_entries(Seq::empty()))), k + 1))
                } else {
                    None
                }
            },
        }
    }
}

/// The components of a dot path from `p`: each a dot and a value.
pub open spec fn p_dots<E: Encoding>(s: Seq<char>, p: nat, acc: Result<Seq<Val>, BuildErr>) -> (Result<Seq<Val>, BuildErr>, nat)
    decreases s.len() - p, 0nat,
{
    let k = skip_ws(s, p);
    proof {
        lemma_skip_ws(s, p);
    }
    if k < s.len() && s[k as int] == '.' {
        match p_value::<E>(s, k + 1) {
            Some((r, e)) => if p < e <= s.len() { p_dots::<E>(s, e, push_built(acc, r)) } else { (acc, p) },
            None => (acc, p),
        }
    } else {
        (acc, p)
    }
}

/// A dot path at `q`: components each after a dot, and a final dot.
pub open spec fn p_dot_path<E: Encoding>(s: Seq<char>, q: nat) -> Option<(Result<Val, BuildErr>, nat)>
    decreases s.len() - q, 1nat,
{
    if q >= s.len() {
        None
    } else {
        let (acc, e) = p_dots::<E>(s, q, Ok(Seq::empty()));
        let k = skip_ws(s, e);
        if k < s.len() && s[k as int] == '.' {
            Some((
                match acc {
                    Ok(items) => Ok(E::path(items)),
                    Err(er) => Err(er),
                },
                k + 1,
            ))
        } else {
            None
        }
    }
}

/// An assignment statement as a value: `[[lhs, lhs_depth], [rhs, rhs_depth]]` as system lists.
pub open spec fn stmt_val(l: Val, ld: nat, r: Val, rd: nat) -> Val {
    sys_val(seq![sys_val(seq![l, atomic_val(ld)]), sys_val(seq![r, atomic_val(rd)])])
}

/// The assignment operator at `k`: its depths and its width.
pub open spec fn p_assign_op(s: Seq<char>, k: nat) -> Option<(nat, nat, nat)> {
    if k < s.len() && s[k as int] == '=' {
        Some((0, 0, 1))
    } else if k + 1 < s.len() && s[k as int] == '<' && s[k + 1int] == '-' {
        Some((0, 1, 2))
    } else if k + 1 < s.len() && s[k as int] == '-' && s[k + 1int] == '>' {
        Some((1, 0, 2))
    } else {
        None
    }
}

/// One side of an assignment at `p`: a value, or a dereference, a value between
/// parentheses, which is read as a path once more when the statement runs; gives
/// the value, the added depth and the end.
pub open spec fn p_side<E: Encoding>(s: Seq<char>, p: nat) -> Option<(Result<Val, BuildErr>, nat, nat)> {
    let q = skip_ws(s, p);
    if q < s.len() && s[q as int] == '(' {
        match p_value::<E>(s, q + 1) {
            None => None,
            Some((r, e)) => {
                let k = skip_ws(s, e);
                if k < s.len() && s[k as int] == ')' {
                    Some((r, 1, k + 1))
                } else {
                    None
                }
            },
        }
    } else {
        match p_value::<E>(s, p) {
            None => None,
            Some((r, e)) => Some((r, 0, e)),
        }
    }
}

/// An assignment at `p`: a side, `=`, `<-` or `->`, and a side.
pub open spec fn p_statement<E: Encoding>(s: Seq<char>, p: nat) -> Option<(Result<Val, BuildErr>, nat)> {
    match p_side::<E>(s, p) {
        None => None,
        Some((l, lx, e)) => {
            let k = skip_ws(s, e);
            match p_assign_op(s, k) {
                None => None,
                Some((ld, rd, w)) => match p_side::<E>(s, k + w) {
                    None => None,
                    Some((r, rx, e2)) => Some((
                        match l {
                            Err(x) => Err(x),
                            Ok(lv) => match r {
                                Err(x) => Err(x),
                                Ok(rv) => Ok(stmt_val(lv, ld + lx, rv, rd + rx)),
                            },
                        },
                        e2,
                    )),
                },
            }
        },
    }
}

/// The statements and values of a program from `p`.
pub open spec fn p_lines<E: Encoding>(s: Seq<char>, p: nat, acc: Result<Seq<Val>, BuildErr>) -> (Result<Seq<Val>, BuildErr>, nat)
    decreases s.len() - p,
{
    match p_statement::<E>(s, p) {
        Some((r, e)) => if p < e <= s.len() { p_lines::<E>(s, e, push_built(acc, r)) } else { (acc, p) },
        None => match p_value::<E>(s, p) {
            Some((r, e)) => if p < e <= s.len() { p_lines::<E>(s, e, push_built(acc, r)) } else { (acc, p) },
            None => (acc, p),
        },
    }
}

/// Whether the text at `q` is the program marker `lines!`.
pub open spec fn starts_lines(s: Seq<char>, q: nat) -> bool {
    q + 6 <= s.len() && s.subrange(q as int, q + 6int) == seq!['l', 'i', 'n', 'e', 's', '!']
}

/// Reading a whole source: `lines!` and the program's lines, which become a system
/// list, or a single value.
pub open spec fn p_file<E: Encoding>(s: Seq<char>) -> Result<Val, SourceError> {
    let q = skip_ws(s, 0);
    if starts_lines(s, q) {
        let (acc, e) = p_lines::<E>(s, q + 6, Ok(Seq::empty()));
        if skip_ws(s, e) == s.len() {
            match acc {
                Ok(items) => Ok(sys_val(items)),
                Err(x) => Err(SourceError::Build(x)),
            }
        } else {
            Err(SourceError::Syntax)
        }
    } else {
        match p_value::<E>(s, q) {
            Some((r, e)) => if skip_ws(s, e) == s.len() {
                match r {
                    Ok(v) => Ok(v),
                    Err(x) => Err(SourceError::Build(x)),
                }
            } else {
                Err(SourceError::Syntax)
            },
            None => Err(SourceError::Syntax),
        }
    }
}

/// The built part of a parse result.
pub open spec fn built_part<A>(o: Option<(Result<A, BuildErr>, nat)>) -> Result<A, BuildErr> {
    match o {
        Some((b, _)) => b,
        None => Err(BuildErr::BadNumber),
    }
}

/// Whether an executable build result agrees with a modelled one.
pub open spec fn built_matches(x: Result<V, BuildErr>, b: Result<Val, BuildErr>) -> bool {
    match b {
        Ok(v) => x matches Ok(xv) && xv@ == v,
        Err(e) => x == Err::<V, BuildErr>(e),
    }
}

/// Whether an executable parse result agrees with a modelled one.
pub open spec fn parsed(r: Option<(Result<V, BuildErr>, usize)>, sp: Option<(Result<Val, BuildErr>, nat)>) -> bool {
    match sp {
        None => r is None,
        Some((b, e)) => r matches Some((x, e2)) && e2 == e && built_matches(x, b),
    }
}

/// Whether executable items built so far agree with modelled ones.
pub open spec fn items_match(x: Result<Vec<V>, BuildErr>, b: Result<Seq<Val>, BuildErr>) -> bool {
    match b {
        Ok(vs) => x matches Ok(xs) && views(xs@) == vs,
        Err(e) => x == Err::<Vec<V>, BuildErr>(e),
    }
}

/// Adds a built item to the items built so far; the first error stays.
fn push_item(acc: Result<Vec<V>, BuildErr>, item: Result<V, BuildErr>) -> (r: Result<Vec<V>, BuildErr>)
    ensures
        forall|b: Result<Seq<Val>, BuildErr>, c: Result<Val, BuildErr>|
            items_match(acc, b) && built_matches(item, c) ==> items_match(r, push_built(b, c)),
{
    match acc {
        Err(e) => Err(e),
        Ok(mut xs) => match item {
            Err(e) => Err(e),
            Ok(x) => {
                let ghost before = xs@;
                xs.push(x);
                proof {
                    crate::value::lemma_views_push(before, x);
                }
                Ok(xs)
            },
        },
    }
}

fn skip_whitespace(s: &Vec<char>, p: usize) -> (r: usize)
    requires
        p <= s@.len(),
    ensures
        r == skip_ws(s@, p as nat),
        p <= r <= s@.len(),
{
    let mut i = p;
    while i < s.len() && (s[i] == ' ' || s[i] == '\t' || s[i] == '\r' || s[i] == '\n')
        invariant
            p <= i <= s@.len(),
            skip_ws(s@, p as nat) == skip_ws(s@, i as nat),
        decreases s@.len() - i,
    {
        i = i + 1;
    }
    i
}

fn digits_until(s: &Vec<char>, p: usize) -> (r: usize)
    requires
        p <= s@.len(),
    ensures
        r == digits_end(s@, p as nat),
        p <= r <= s@.len(),
{
    let mut i = p;
    while i < s.len() && '0' <= s[i] && s[i] <= '9'
        invariant
            p <= i <= s@.len(),
            digits_end(s@, p as nat) == digits_end(s@, i as nat),
        decreases s@.len() - i,
    {
        i = i + 1;
    }
    i
}

fn alnum_until(s: &Vec<char>, p: usize) -> (r: usize)
    requires
        p <= s@.len(),
    ensures
        r == alnum_end(s@, p as nat),
        p <= r <= s@.len(),
{
    let mut i = p;
    while i < s.len() && (('0' <= s[i] && s[i] <= '9') || ('a' <= s[i] && s[i] <= 'z') || ('A' <= s[i] && s[i] <= 'Z'))
        invariant
            p <= i <= s@.len(),
            alnum_end(s@, p as nat) == alnum_end(s@, i as nat),
        decreases s@.len() - i,
    {
        i = i + 1;
    }
    i
}

/// A number capped just above what any 32-bit literal needs.
pub open spec fn cap(n: nat) -> nat {
    if n < 0x100_0000_0000 { n } else { 0x100_0000_0000 }
}

/// Every character of a run of digits is a digit.
pub proof fn lemma_digits_end(s: Seq<char>, p: nat, i: nat)
    requires
        p <= i < digits_end(s, p),
    ensures
        is_digit(s[i as int]),
    decreases i - p,
{
    if p < i {
        lemma_digits_end(s, p + 1, i);
    }
}

/// The decimal number written by the digits `s[a..b]`, or a bound when it is larger.
fn digits_number(s: &Vec<char>, a: usize, b: usize) -> (r: u64)
    requires
        a <= b <= s@.len(),
        forall|i: int| a <= i < b ==> is_digit(#[trigger] s@[i]),
    ensures
        r == cap(digits_value(s@, a as nat, b as nat)),
{
    let mut acc: u64 = 0;
    let mut i = a;
    while i < b
        invariant
            a <= i <= b,
            b <= s@.len(),
            forall|i: int| a <= i < b ==> is_digit(#[trigger] s@[i]),
            acc == cap(digits_value(s@, a as nat, i as nat)),
        decreases b - i,
    {
        let d = (s[i] as u32) - 48;
        proof {
            assert(is_digit(s@[i as int]));
            assert(digits_value(s@, a as nat, (i + 1) as nat) == digits_value(s@, a as nat, i as nat) * 10 + d);
        }
        let next = acc * 10 + (d as u64);
        acc = if next < 0x100_0000_0000 { next } else { 0x100_0000_0000 };
        i = i + 1;
    }
    acc
}

fn parse_number<E: Encoding>(s: &Vec<char>, q: usize) -> (r: Option<(Result<V, BuildErr>, usize)>)
    requires
        q < s@.len(),
    ensures
        r matches Some((_, e)) ==> q < e <= s@.len(),
        parsed(r, p_number::<E>(s@, q as nat)),
{
    let n = s.len();
    let start = if s[q] == '-' { q + 1 } else { q };
    let e = digits_until(s, start);
    if e == start {
        return None;
    }
    proof {
        assert forall|i: int| start <= i < e implies is_digit(#[trigger] s@[i]) by {
            lemma_digits_end(s@, start as nat, i as nat);
        }
    }
    let n = digits_number(s, start, e);
    let neg = s[q] == '-';
    let fits = if neg { n <= 0x8000_0000 } else { n < 0x8000_0000 };
    if !fits {
        return Some((Err(BuildErr::BadNumber), e));
    }
    let v: i64 = if neg { 0i64 - (n as i64) } else { n as i64 };
    let x: i32 = v as i32;
    Some((Ok(E::num_of(x)), e))
}

fn parse_atomic(s: &Vec<char>, q: usize) -> (r: Option<(Result<V, BuildErr>, usize)>)
    requires
        q < s@.len(),
    ensures
        r matches Some((_, e)) ==> q < e <= s@.len(),
        parsed(r, p_atomic(s@, q as nat)),
{
    let n = s.len();
    let e = digits_until(s, q + 1);
    if e == q + 1 {
        return None;
    }
    proof {
        assert forall|i: int| q + 1 <= i < e implies is_digit(#[trigger] s@[i]) by {
            lemma_digits_end(s@, (q + 1) as nat, i as nat);
        }
    }
    let n = digits_number(s, q + 1, e);
    if n > 0xFFFF_FFFF {
        return Some((Err(BuildErr::BadNumber), e));
    }
    Some((Ok(V::atomic(n as u32)), e))
}

/// The character an escape letter stands for.
pub fn escaped(c: char) -> (r: Option<char>)
    ensures
        r == escape_of(c),
{
    if c == 'n' {
        Some('\n')
    } else if c == 't' {
        Some('\t')
    } else if c == 'r' {
        Some('\r')
    } else if c == '0' {
        Some('\0')
    } else if c == '\\' {
        Some('\\')
    } else if c == '\'' {
        Some('\'')
    } else if c == '"' {
        Some('"')
    } else {
        None
    }
}

fn parse_char<E: Encoding>(s: &Vec<char>, q: usize) -> (r: Option<(Result<V, BuildErr>, usize)>)
    requires
        q < s@.len(),
    ensures
        r matches Some((_, e)) ==> q < e <= s@.len(),
        parsed(r, p_char::<E>(s@, q as nat)),
{
    let n = s.len();
    if n - q > 1 && s[q + 1] == '\\' {
        if n - q > 3 && s[q + 3] == '\'' {
            let b = match escaped(s[q + 2]) {
                Some(c) => Ok(E::num_of(c as u32)),
                None => Err(BuildErr::UnknownEscape(s[q + 2])),
            };
            Some((b, q + 4))
        } else {
            None
        }
    } else if n - q > 2 && s[q + 1] != '\'' && s[q + 2] == '\'' {
        Some((Ok(E::num_of(s[q + 1] as u32)), q + 3))
    } else {
        None
    }
}

/// Whether executable characters built so far agree with modelled ones.
pub open spec fn chars_match(x: Result<Vec<char>, BuildErr>, b: Result<Seq<char>, BuildErr>) -> bool {
    match b {
        Ok(cs) => x matches Ok(xs) && xs@ == cs,
        Err(e) => x == Err::<Vec<char>, BuildErr>(e),
    }
}

fn parse_string_lit<E: Encoding>(s: &Vec<char>, q: usize) -> (r: Option<(Result<V, BuildErr>, usize)>)
    requires
        q < s@.len(),
    ensures
        r matches Some((_, e)) ==> q < e <= s@.len(),
        parsed(r, p_string_lit::<E>(s@, q as nat)),
{
    let n = s.len();
    let mut p = q + 1;
    let mut acc: Result<Vec<char>, BuildErr> = Ok(Vec::new());
    let ghost mut sacc: Result<Seq<char>, BuildErr> = Ok(Seq::empty());
    proof {
        assert(chars_match(acc, sacc));
    }
    loop
        invariant
            n == s@.len(),
            q < p <= n,
            chars_match(acc, sacc),
            p_string_body(s@, (q + 1) as nat, Ok(Seq::empty())) == p_string_body(s@, p as nat, sacc),
        decreases n - p,
    {
        if p >= n {
            proof {
                assert(p_string_body(s@, p as nat, sacc) is None);
            }
            return None;
        }
        if s[p] == '\\' && n - p > 1 {
            let item: Result<char, BuildErr> = match escaped(s[p + 1]) {
                Some(c) => Ok(c),
                None => Err(BuildErr::UnknownEscape(s[p + 1])),
            };
            proof {
                assert(item == match escape_of(s@[p + 1]) {
                    Some(c) => Ok(c),
                    None => Err(BuildErr::UnknownEscape(s@[p + 1])),
                });
                lemma_string_body_escape(s@, p as nat, sacc, item);
                sacc = push_built(sacc, item);
            }
            acc = match acc {
                Err(e) => Err(e),
                Ok(mut cs) => match item {
                    Err(e) => Err(e),
                    Ok(c) => {
                        cs.push(c);
                        Ok(cs)
                    },
                },
            };
            p = p + 2;
        } else if s[p] == '"' {
            proof {
                assert(p_string_body(s@, p as nat, sacc) == Some((sacc, (p + 1) as nat)));
            }
            let b = match acc {
                Err(e) => Err(e),
                Ok(cs) => Ok(E::string(&cs)),
            };
            return Some((b, p + 1));
        } else {
            let c = s[p];
            proof {
                assert(p_string_body(s@, p as nat, sacc) == p_string_body(s@, (p + 1) as nat, push_built(sacc, Ok(c))));
                sacc = push_built(sacc, Ok(c));
            }
            acc = match acc {
                Err(e) => Err(e),
                Ok(mut cs) => {
                    cs.push(c);
                    Ok(cs)
                },
            };
            p = p + 1;
        }
    }
}

fn parse_word<E: Encoding>(s: &Vec<char>, q: usize) -> (r: Option<(Result<V, BuildErr>, usize)>)
    requires
        q < s@.len(),
    ensures
        r matches Some((_, e)) ==> q < e <= s@.len(),
        parsed(r, p_word::<E>(s@, q as nat)),
{
    let e = alnum_until(s, q);
    if e == q {
        return None;
    }
    let mut cs: Vec<char> = Vec::new();
    let mut i = q;
    while i < e
        invariant
            q <= i <= e,
            e <= s@.len(),
            cs@ == s@.subrange(q as int, i as int),
        decreases e - i,
    {
        cs.push(s[i]);
        proof {
            assert(cs@ =~= s@.subrange(q as int, i + 1));
        }
        i = i + 1;
    }
    Some((Ok(E::string(&cs)), e))
}

/// The closing of a list at `p`: an optional comma, then `close`.
fn parse_close(s: &Vec<char>, p: usize, close: char) -> (r: Option<usize>)
    requires
        p <= s@.len(),
    ensures
        r == match p_close(s@, p as nat, close) {
            Some(e) => Some(e as usize),
            None => None::<usize>,
        },
        r matches Some(e) ==> p < e <= s@.len(),
{
    let k = skip_whitespace(s, p);
    let p2 = if k < s.len() && s[k] == ',' { k + 1 } else { p };
    let k2 = skip_whitespace(s, p2);
    if k2 < s.len() && s[k2] == close {
        Some(k2 + 1)
    } else {
        None
    }
}

/// A value at `p`.
pub fn parse_value<E: Encoding>(s: &Vec<char>, p: usize) -> (r: Option<(Result<V, BuildErr>, usize)>)
    requires
        p <= s@.len(),
    ensures
        parsed(r, p_value::<E>(s@, p as nat)),
        r matches Some((_, e)) ==> p < e <= s@.len(),
    decreases s@.len() - p, 2nat,
{
    let q = skip_whitespace(s, p);
    if q >= s.len() {
        return None;
    }
    let num = parse_number::<E>(s, q);
    if num.is_some() {
        return num;
    }
    let c = s[q];
    if c == '*' {
        parse_atomic(s, q)
    } else if c == '{' {
        parse_map::<E>(s, q)
    } else if c == '\'' {
        parse_char::<E>(s, q)
    } else if c == '"' {
        parse_string_lit::<E>(s, q)
    } else if c == '[' {
        parse_array::<E>(s, q)
    } else if c == '.' {
        parse_dot_path::<E>(s, q)
    } else if ('0' <= c && c <= '9') || ('a' <= c && c <= 'z') || ('A' <= c && c <= 'Z') {
        parse_word::<E>(s, q)
    } else if c == '<' && q + 1 < s.len() && s[q + 1] == '>' {
        Some((Ok(V(None)), q + 2))
    } else {
        None
    }
}

/// An array at `q`.
fn parse_array<E: Encoding>(s: &Vec<char>, q: usize) -> (r: Option<(Result<V, BuildErr>, usize)>)
    requires
        q < s@.len(),
    ensures
        parsed(r, p_array::<E>(s@, q as nat)),
        r matches Some((_, e)) ==> q < e <= s@.len(),
    decreases s@.len() - q, 1nat,
{
    let n = s.len();
    match parse_value::<E>(s, q + 1) {
        None => {
            let k = skip_whitespace(s, q + 1);
            if k < n && s[k] == ']' {
                let none: Vec<V> = Vec::new();
                proof {
                    assert(views(none@) =~= Seq::<Val>::empty());
                }
                let r = E::marked_list(none);
                Some((Ok(r), k + 1))
            } else {
                None
            }
        },
        Some((first, e0)) => {
            let ghost sfirst = built_part(p_value::<E>(s@, (q + 1) as nat));
            let none: Vec<V> = Vec::new();
            proof {
                assert(views(none@) =~= Seq::<Val>::empty());
            }
            let mut acc = push_item(Ok(none), first);
            let ghost mut sacc = push_built(Ok(Seq::<Val>::empty()), sfirst);
            let mut p = e0;
            loop
                invariant
                    n == s@.len(),
                    q < p <= n,
                    items_match(acc, sacc),
                    p_items_tail::<E>(s@, e0 as nat, push_built(Ok(Seq::<Val>::empty()), sfirst)) == p_items_tail::<E>(s@, p as nat, sacc),
                ensures
                    q < p <= n,
                    items_match(acc, sacc),
                    p_items_tail::<E>(s@, e0 as nat, push_built(Ok(Seq::<Val>::empty()), sfirst)) == (sacc, p as nat),
                decreases n - p,
            {
                let k = skip_whitespace(s, p);
                if !(k < n && s[k] == ',') {
                    break;
                }
                match parse_value::<E>(s, k + 1) {
                    None => {
                        break;
                    },
                    Some((item, e)) => {
                        let ghost sitem = built_part(p_value::<E>(s@, (k + 1) as nat));
                        acc = push_item(acc, item);
                        proof {
                            sacc = push_built(sacc, sitem);
                        }
                        p = e;
                    },
                }
            }
            proof {
                assert(q < e0 <= n);
            }
            match parse_close(s, p, ']') {
                None => None,
                Some(e3) => {
                    let b = match acc {
                        Err(e) => Err(e),
                        Ok(items) => Ok(E::marked_list(items)),
                    };
                    Some((b, e3))
                },
            }
        },
    }
}

/// Whether executable entries built so far agree with modelled ones.
pub open spec fn pairs_match(x: Result<Vec<(V, V)>, BuildErr>, b: Result<Seq<(Val, Val)>, BuildErr>) -> bool {
    match b {
        Ok(ps) => x matches Ok(xs) && entries_of(xs@) == ps,
        Err(e) => x == Err::<Vec<(V, V)>, BuildErr>(e),
    }
}

/// Whether an executable entry agrees with a modelled one.
pub open spec fn pair_matches(x: Result<(V, V), BuildErr>, b: Result<(Val, Val), BuildErr>) -> bool {
    match b {
        Ok(kv) => x matches Ok(xkv) && (xkv.0@, xkv.1@) == kv,
        Err(e) => x == Err::<(V, V), BuildErr>(e),
    }
}

fn push_pair(acc: Result<Vec<(V, V)>, BuildErr>, item: Result<(V, V), BuildErr>) -> (r: Result<Vec<(V, V)>, BuildErr>)
    ensures
        forall|b: Result<Seq<(Val, Val)>, BuildErr>, c: Result<(Val, Val), BuildErr>|
            pairs_match(acc, b) && pair_matches(item, c) ==> pairs_match(r, push_built(b, c)),
{
    match acc {
        Err(e) => Err(e),
        Ok(mut xs) => match item {
            Err(e) => Err(e),
            Ok(x) => {
                let ghost before = xs@;
                xs.push(x);
                proof {
                    crate::value::lemma_entries_push(before, x);
                }
                Ok(xs)
            },
        },
    }
}

/// A map entry at `p`.
fn parse_entry<E: Encoding>(s: &Vec<char>, p: usize) -> (r: Option<(Result<(V, V), BuildErr>, usize)>)
    requires
        p <= s@.len(),
    ensures
        match p_entry::<E>(s@, p as nat) {
            None => r is None,
            Some((b, e)) => r matches Some((x, e2)) && e2 == e && pair_matches(x, b),
        },
        r matches Some((_, e)) ==> p < e <= s@.len(),
    decreases s@.len() - p, 4nat,
{
    match parse_value::<E>(s, p) {
        None => None,
        Some((k, e)) => {
            let c = skip_whitespace(s, e);
            if c < s.len() && s[c] == ':' {
                match parse_value::<E>(s, c + 1) {
                    None => None,
                    Some((v, e2)) => {
                        let b = match k {
                            Err(x) => Err(x),
                            Ok(kv) => match v {
                                Err(x) => Err(x),
                                Ok(vv) => Ok((kv, vv)),
                            },
                        };
                        Some((b, e2))
                    },
                }
            } else {
                None
            }
        },
    }
}

/// A map literal at `q`.
fn parse_map<E: Encoding>(s: &Vec<char>, q: usize) -> (r: Option<(Result<V, BuildErr>, usize)>)
    requires
        q < s@.len(),
    ensures
        parsed(r, p_map::<E>(s@, q as nat)),
        r matches Some((_, e)) ==> q < e <= s@.len(),
    decreases s@.len() - q, 1nat,
{
    let n = s.len();
    match parse_entry::<E>(s, q + 1) {
        None => {
            let k = skip_whitespace(s, q + 1);
            if k < n && s[k] == '}' {
                let none: Vec<(V, V)> = Vec::new();
                proof {
                    assert(entries_of(none@) =~= Seq::<(Val, Val)>::empty());
                }
                let l = L::from_entries(none);
                proof {
                    lemma_view_node(l);
                }
                Some((Ok(V(Some(l))), k + 1))
            } else {
                None
            }
        },
        Some((first, e0)) => {
            let ghost sfirst = built_part(p_entry::<E>(s@, (q + 1) as nat));
            let none: Vec<(V, V)> = Vec::new();
            proof {
                assert(entries_of(none@) =~= Seq::<(Val, Val)>::empty());
            }
            let mut acc = push_pair(Ok(none), first);
            let ghost mut sacc = push_built(Ok(Seq::<(Val, Val)>::empty()), sfirst);
            let mut p = e0;
            loop
                invariant
                    n == s@.len(),
                    q < p <= n,
                    pairs_match(acc, sacc),
                    p_entries_tail::<E>(s@, e0 as nat, push_built(Ok(Seq::<(Val, Val)>::empty()), sfirst)) == p_entries_tail::<E>(s@, p as nat, sacc),
                ensures
                    q < p <= n,
                    pairs_match(acc, sacc),
                    p_entries_tail::<E>(s@, e0 as nat, push_built(Ok(Seq::<(Val, Val)>::empty()), sfirst)) == (sacc, p as nat),
                decreases n - p,
            {
                let k = skip_whitespace(s, p);
                if !(k < n && s[k] == ',') {
                    break;
                }
                match parse_entry::<E>(s, k + 1) {
                    None => {
                        break;
                    },
                    Some((item, e)) => {
                        let ghost sitem = built_part(p_entry::<E>(s@, (k + 1) as nat));
                        acc = push_pair(acc, item);
                        proof {
                            sacc = push_built(sacc, sitem);
                        }
                        p = e;
                    },
                }
            }
            proof {
                assert(q < e0 <= n);
            }
            match parse_close(s, p, '}') {
                None => None,
                Some(e3) => {
                    let b = match acc {
                        Err(e) => Err(e),
                        Ok(pairs) => {
                            let l = L::from_entries(pairs);
                            proof {
                                lemma_view_node(l);
                            }
                            Ok(V(Some(l)))
                        },
                    };
                    Some((b, e3))
                },
            }
        },
    }
}

/// A dot path at `q`.
fn parse_dot_path<E: Encoding>(s: &Vec<char>, q: usize) -> (r: Option<(Result<V, BuildErr>, usize)>)
    requires
        q < s@.len(),
    ensures
        parsed(r, p_dot_path::<E>(s@, q as nat)),
        r matches Some((_, e)) ==> q < e <= s@.len(),
    decreases s@.len() - q, 1nat,
{
    let n = s.len();
    let none: Vec<V> = Vec::new();
    proof {
        assert(views(none@) =~= Seq::<Val>::empty());
    }
    let mut acc: Result<Vec<V>, BuildErr> = Ok(none);
    let ghost mut sacc: Result<Seq<Val>, BuildErr> = Ok(Seq::empty());
    let mut p = q;
    loop
        invariant
            n == s@.len(),
            q <= p <= n,
            items_match(acc, sacc),
            p_dots::<E>(s@, q as nat, Ok(Seq::<Val>::empty())) == p_dots::<E>(s@, p as nat, sacc),
        ensures
            q <= p <= n,
            items_match(acc, sacc),
            p_dots::<E>(s@, q as nat, Ok(Seq::<Val>::empty())) == (sacc, p as nat),
        decreases n - p,
    {
        let k = skip_whitespace(s, p);
        if !(k < n && s[k] == '.') {
            break;
        }
        match parse_value::<E>(s, k + 1) {
            None => {
                break;
            },
            Some((item, e)) => {
                let ghost sitem = built_part(p_value::<E>(s@, (k + 1) as nat));
                acc = push_item(acc, item);
                proof {
                    sacc = push_built(sacc, sitem);
                }
                p = e;
            },
        }
    }
    let k = skip_whitespace(s, p);
    if k < n && s[k] == '.' {
        let b = match acc {
            Err(e) => Err(e),
            Ok(items) => Ok(E::path_list(items)),
        };
        Some((b, k + 1))
    } else {
        None
    }
}

/// One side of an assignment statement at `p`: the value, the added depth and the end.
fn parse_side<E: Encoding>(s: &Vec<char>, p: usize) -> (r: Option<(Result<V, BuildErr>, u32, usize)>)
    requires
        p <= s@.len(),
    ensures
        match p_side::<E>(s@, p as nat) {
            None => r is None,
            Some((b, x, e)) => r matches Some((v, x2, e2)) && built_matches(v, b) && x2 == x && e2 == e && p < e <= s@.len(),
        },
{
    let n = s.len();
    let q = skip_whitespace(s, p);
    if q < n && s[q] == '(' {
        let (v, e) = match parse_value::<E>(s, q + 1) {
            None => return None,
            Some(x) => x,
        };
        let k = skip_whitespace(s, e);
        if k < n && s[k] == ')' {
            Some((v, 1, k + 1))
        } else {
            None
        }
    } else {
        match parse_value::<E>(s, p) {
            None => None,
            Some((v, e)) => Some((v, 0, e)),
        }
    }
}

/// An assignment statement at `p`.
fn parse_statement<E: Encoding>(s: &Vec<char>, p: usize) -> (r: Option<(Result<V, BuildErr>, usize)>)
    requires
        p <= s@.len(),
    ensures
        parsed(r, p_statement::<E>(s@, p as nat)),
        r matches Some((_, e)) ==> p < e <= s@.len(),
{
    let n = s.len();
    let (l, lx, e) = match parse_side::<E>(s, p) {
        None => return None,
        Some(x) => x,
    };
    let k = skip_whitespace(s, e);
    let (ld, rd, w): (u32, u32, usize) = if k < n && s[k] == '=' {
        (0, 0, 1)
    } else if k < n && n - k > 1 && s[k] == '<' && s[k + 1] == '-' {
        (0, 1, 2)
    } else if k < n && n - k > 1 && s[k] == '-' && s[k + 1] == '>' {
        (1, 0, 2)
    } else {
        return None;
    };
    let (rv, rx, e2) = match parse_side::<E>(s, k + w) {
        None => return None,
        Some(x) => x,
    };
    let ld = ld + lx;
    let rd = rd + rx;
    let b = match l {
        Err(x) => Err(x),
        Ok(lv) => match rv {
            Err(x) => Err(x),
            Ok(rvv) => {
                let mut lhs: Vec<V> = Vec::new();
                lhs.push(lv);
                lhs.push(V::atomic(ld));
                let mut rhs: Vec<V> = Vec::new();
                rhs.push(rvv);
                rhs.push(V::atomic(rd));
                let lhs_v = V::system_list(lhs);
                let rhs_v = V::system_list(rhs);
                let mut both: Vec<V> = Vec::new();
                both.push(lhs_v);
                both.push(rhs_v);
                proof {
                    assert(views(lhs@) =~= seq![lhs@[0]@, atomic_val(ld as nat)]);
                    assert(views(rhs@) =~= seq![rhs@[0]@, atomic_val(rd as nat)]);
                    assert(views(both@) =~= seq![lhs_v@, rhs_v@]);
                }
                Ok(V::system_list(both))
            },
        },
    };
    Some((b, e2))
}

/// The statements and values of a program from `p`.
fn parse_lines<E: Encoding>(s: &Vec<char>, p0: usize) -> (r: (Result<Vec<V>, BuildErr>, usize))
    requires
        p0 <= s@.len(),
    ensures
        items_match(r.0, p_lines::<E>(s@, p0 as nat, Ok(Seq::empty())).0),
        r.1 == p_lines::<E>(s@, p0 as nat, Ok(Seq::empty())).1,
        p0 <= r.1 <= s@.len(),
{
    let n = s.len();
    let none: Vec<V> = Vec::new();
    proof {
        assert(views(none@) =~= Seq::<Val>::empty());
    }
    let mut acc: Result<Vec<V>, BuildErr> = Ok(none);
    let ghost mut sacc: Result<Seq<Val>, BuildErr> = Ok(Seq::empty());
    let mut p = p0;
    loop
        invariant
            n == s@.len(),
            p0 <= p <= n,
            items_match(acc, sacc),
            p_lines::<E>(s@, p0 as nat, Ok(Seq::<Val>::empty())) == p_lines::<E>(s@, p as nat, sacc),
        ensures
            p0 <= p <= n,
            items_match(acc, sacc),
            p_lines::<E>(s@, p0 as nat, Ok(Seq::<Val>::empty())) == (sacc, p as nat),
        decreases n - p,
    {
        match parse_statement::<E>(s, p) {
            Some((item, e)) => {
                let ghost sitem = built_part(p_statement::<E>(s@, p as nat));
                acc = push_item(acc, item);
                proof {
                    sacc = push_built(sacc, sitem);
                }
                p = e;
            },
            None => match parse_value::<E>(s, p) {
                Some((item, e)) => {
                    let ghost sitem = built_part(p_value::<E>(s@, p as nat));
                    acc = push_item(acc, item);
                    proof {
                        sacc = push_built(sacc, sitem);
                    }
                    p = e;
                },
                None => {
                    proof {
                        assert(p_lines::<E>(s@, p as nat, sacc) == (sacc, p as nat));
                    }
                    break;
                },
            },
        }
    }
    (acc, p)
}

/// Reads a source text, writing numbers and lists as `E` does:
/// `lines!` and a program, or a single value.
pub fn parse_source_with<E: Encoding>(src: &str) -> (r: Result<V, SourceError>)
    ensures
        match p_file::<E>(src@) {
            Ok(v) => r matches Ok(x) && x@ == v,
            Err(e) => r == Err::<V, SourceError>(e),
        },
{
    let s = crate::text::chars_of(src);
    let n = s.len();
    let q = skip_whitespace(&s, 0);
    let marker = n - q >= 6 && s[q] == 'l' && s[q + 1] == 'i' && s[q + 2] == 'n' && s[q + 3] == 'e'
        && s[q + 4] == 's' && s[q + 5] == '!';
    proof {
        if q + 6 <= n {
            assert(marker == (s@.subrange(q as int, q + 6int) =~= seq!['l', 'i', 'n', 'e', 's', '!']));
        }
    }
    if marker {
        let (acc, p) = parse_lines::<E>(&s, q + 6);
        if skip_whitespace(&s, p) != n {
            return Err(SourceError::Syntax);
        }
        match acc {
            Err(e) => Err(SourceError::Build(e)),
            Ok(items) => Ok(V::system_list(items)),
        }
    } else {
        match parse_value::<E>(&s, q) {
            None => Err(SourceError::Syntax),
            Some((b, e)) => {
                if skip_whitespace(&s, e) != n {
                    return Err(SourceError::Syntax);
                }
                match b {
                    Ok(v) => Ok(v),
                    Err(x) => Err(SourceError::Build(x)),
                }
            },
        }
    }
}

/// Reads a source text: `lines!` and a program, or a single value.
pub fn parse_source(src: &str) -> (r: Result<V, SourceError>)
    ensures
        match p_file::<Flagged>(src@) {
            Ok(v) => r matches Ok(x) && x@ == v,
            Err(e) => r == Err::<V, SourceError>(e),
        },
{
    parse_source_with::<Flagged>(src)
}

proof fn lemma_string_body_escape(s: Seq<char>, p: nat, acc: Result<Seq<char>, BuildErr>, x: Result<char, BuildErr>)
    requires
        p + 1 < s.len(),
        s[p as int] == '\\',
        x == match escape_of(s[p + 1int]) {
            Some(c) => Ok(c),
            None => Err(BuildErr::UnknownEscape(s[p + 1int])),
        },
    ensures
        p_string_body(s, p, acc) == p_string_body(s, (p + 2) as nat, push_built(acc, x)),
{
    assert(!(p >= s.len()));
    assert(s[p as int] == '\\' && p + 1 < s.len());
}

} // verus!
