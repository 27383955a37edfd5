//! How values are written out as text.
use vstd::prelude::*;
use crate::order::{Val, lookup, lemma_find, find};
use crate::value::{V, L, lemma_view_node};
use crate::encode::{atomic_val, atomic_of, decode_prim, int_val, Primitive};
use crate::text::string_of;

verus! {

/// Whether `char::is_alphanumeric` holds of `c`.
pub uninterp spec fn alnum_char(c: char) -> bool;

/// Whether every character of `t` is alphanumeric.
pub open spec fn all_alnum(t: Seq<char>) -> bool {
    forall|i: int| 0 <= i < t.len() ==> alnum_char(#[trigger] t[i])
}

/// The character of the decimal digit `d`.
pub open spec fn digit_char(d: nat) -> char {
    ((48 + d) as u8) as char
}

/// The decimal digits of `n`, most significant first.
pub open spec fn decimal(n: nat) -> Seq<char>
    decreases n,
{
    if n < 10 {
        seq![digit_char(n)]
    } else {
        decimal(n / 10).push(digit_char(n % 10))
    }
}

/// The length recorded by a marked list whose keys are all unary numbers up to it.
pub open spec fn marked_index(s: Seq<(Val, Val)>) -> Option<nat> {
    match lookup(s, Val::Nil) {
        None => None,
        Some(x) => match atomic_of(x) {
            None => None,
            Some(n) => if n <= u32::MAX && forall|i: int|
                0 <= i < s.len() ==> (#[trigger] atomic_of(s[i].0) matches Some(m) && m <= n) {
                Some(n)
            } else {
                None
            },
        },
    }
}

/// The number of entries of a map, as a `u32` counter wraps it.
pub open spec fn list_len(s: Seq<(Val, Val)>) -> nat {
    (s.len() as u32) as nat
}

/// Whether the keys `0..list_len(s)` are all present.
pub open spec fn unmarked_index(s: Seq<(Val, Val)>) -> bool {
    forall|i: nat| i < list_len(s) ==> (#[trigger] lookup(s, atomic_val(i))) is Some
}

/// A 32-bit number with bit pattern `u`, as a signed decimal.
pub open spec fn signed_decimal(u: nat) -> Seq<char> {
    if u < 0x8000_0000 {
        decimal(u)
    } else {
        "-"@ + decimal((0x1_0000_0000 - u) as nat)
    }
}

/// Whether the keys `0..s.len()` are all present, each a 32-bit number.
pub open spec fn index_shape(s: Seq<(Val, Val)>) -> bool {
    s.len() <= 0x1_0000_0000 && forall|i: nat| i < s.len() ==> (#[trigger] lookup(s, int_val(i))) is Some
}

/// Whether every character of `t` is printable ASCII, from the space to the tilde.
pub open spec fn printable(t: Seq<char>) -> bool {
    forall|i: int| 0 <= i < t.len() ==> ' ' <= #[trigger] t[i] && t[i] <= '~'
}

/// The text of a value: a number as a signed decimal, the empty map as `{}`, a list
/// of printable character numbers as a quoted string, another list in brackets, and
/// any other map in braces.
pub open spec fn render(v: Val) -> Seq<char>
    decreases v, 1int, 0int,
{
    match v {
        Val::Nil => "<self>"@,
        Val::Node(s) => {
            if decode_prim(v, 32) is Some {
                signed_decimal(decode_prim(v, 32)->0)
            } else if s.len() == 0 {
                "{}"@
            } else if string_of(v) matches Some(t) && printable(t) {
                "\""@ + string_of(v)->0 + "\""@
            } else if index_shape(s) {
                "["@ + render_list(v, s.len()) + "]"@
            } else {
                "{"@ + render_map(v, s.len()) + "}"@
            }
        },
    }
}

/// The text of the value under key `k` of the map `v`, or of the empty value.
pub open spec fn render_item(v: Val, k: Val) -> Seq<char>
    decreases v, 0int, 0int,
{
    match v {
        Val::Nil => "<self>"@,
        Val::Node(s) => match lookup(s, k) {
            Some(x) => {
                proof {
                    lemma_find(s, k);
                    let j = find(s, k)->0;
                    assert(decreases_to!(v => s[j].1));
                }
                render(x)
            },
            None => "<self>"@,
        },
    }
}

/// The items `0..n` of a list, separated by commas.
pub open spec fn render_list(v: Val, n: nat) -> Seq<char>
    decreases v, 0int, n,
{
    if n == 0 {
        Seq::empty()
    } else if n == 1 {
        render_item(v, int_val(0))
    } else {
        render_list(v, (n - 1) as nat) + ", "@ + render_item(v, int_val((n - 1) as nat))
    }
}

/// The first `n` entries of a map as `key: value`, separated by commas.
pub open spec fn render_map(v: Val, n: nat) -> Seq<char>
    decreases v, 0int, n,
{
    match v {
        Val::Nil => Seq::empty(),
        Val::Node(s) => if n == 0 || n > s.len() {
            Seq::empty()
        } else {
            let i = n - 1;
            proof {
                assert(decreases_to!(v => s[i].0));
                assert(decreases_to!(v => s[i].1));
            }
            let entry = render(s[i].0) + ": "@ + render(s[i].1);
            if n == 1 {
                entry
            } else {
                render_map(v, (n - 1) as nat) + ", "@ + entry
            }
        },
    }
}

/// Calls `char::is_alphanumeric`. Trusted only to answer the same for the same
/// character, as `alnum_char` names it; which characters it accepts (those of
/// Unicode's Alphabetic and Numeric properties) is left unstated.
#[verifier::external_body]
pub(crate) fn is_alphanumeric(c: char) -> (r: bool)
    ensures
        r == alnum_char(c),
{
    c.is_alphanumeric()
}

/// Appends the characters of `s`.
pub(crate) fn push_str(out: &mut Vec<char>, s: &str)
    ensures
        final(out)@ == old(out)@ + s@,
{
    let cs = crate::text::chars_of(s);
    let ghost start = out@;
    let mut i: usize = 0;
    while i < cs.len()
        invariant
            i <= cs@.len(),
            cs@ == s@,
            out@ == start + cs@.take(i as int),
        decreases cs@.len() - i,
    {
        out.push(cs[i]);
        i = i + 1;
        proof {
            assert(cs@.take(i as int) =~= cs@.take(i - 1).push(cs@[i - 1]));
        }
    }
    proof {
        assert(cs@.take(i as int) =~= cs@);
    }
}

/// The decimal digits of `n`.
pub fn decimal_digits(n: u32) -> (r: Vec<char>)
    ensures
        r@ == decimal(n as nat),
    decreases n,
{
    let d = (n % 10) as u8;
    let c = (48u8 + d) as char;
    if n < 10 {
        let mut r = Vec::new();
        r.push(c);
        proof {
            assert(r@ =~= seq![digit_char(n as nat)]);
        }
        r
    } else {
        let mut r = decimal_digits(n / 10);
        r.push(c);
        r
    }
}

/// A string as it is printed: bare when every character is alphanumeric,
/// else in double quotes.
pub fn quote_string(t: &Vec<char>, bare: bool) -> (r: Vec<char>)
    ensures
        r@ == if bare { t@ } else { "\""@ + t@ + "\""@ },
{
    if bare {
        t.clone()
    } else {
        let mut out: Vec<char> = Vec::new();
        push_str(&mut out, "\"");
        let mut i: usize = 0;
        let ghost start = out@;
        while i < t.len()
            invariant
                i <= t@.len(),
                out@ == start + t@.take(i as int),
            decreases t@.len() - i,
        {
            out.push(t[i]);
            i = i + 1;
            proof {
                assert(t@.take(i as int) =~= t@.take(i - 1).push(t@[i - 1]));
            }
        }
        proof {
            assert(t@.take(i as int) =~= t@);
        }
        push_str(&mut out, "\"");
        out
    }
}

/// Whether the keys `0..m.len()` (the count wrapped to `u32`) are all present.
pub fn is_indexed_unmarked(m: &L) -> (r: bool)
    ensures
        r == unmarked_index(m@),
{
    let n = m.len() as u32;
    let mut i: u32 = 0;
    while i < n
        invariant
            n as nat == list_len(m@),
            i <= n,
            forall|j: nat| j < i ==> (#[trigger] lookup(m@, atomic_val(j))) is Some,
        decreases n - i,
    {
        if !m.contains_key(&V::atomic(i)) {
            return false;
        }
        i = i + 1;
    }
    true
}

/// The length of a marked list whose keys are all unary numbers up to it.
pub fn is_indexed_marked(m: &L) -> (r: Option<usize>)
    ensures
        match r {
            Some(n) => marked_index(m@) == Some(n as nat),
            None => marked_index(m@) is None,
        },
{
    let x = match m.get_self() {
        Some(x) => x,
        None => return None,
    };
    let len = match x.try_atomic_to_u32() {
        Some(n) => n,
        None => return None,
    };
    let keys = m.keys();
    let mut i: usize = 0;
    while i < keys.len()
        invariant
            i <= keys@.len(),
            keys@.len() == m@.len(),
            lookup(m@, Val::Nil) == Some(x@),
            atomic_of(x@) == Some(len as nat),
            forall|j: int| 0 <= j < keys@.len() ==> (*keys@[j])@ == #[trigger] m@[j].0,
            forall|j: int| 0 <= j < i ==> (#[trigger] atomic_of(m@[j].0) matches Some(k) && k <= len),
        decreases keys@.len() - i,
    {
        match keys[i].try_atomic_to_u32() {
            Some(k) => {
                if k > len {
                    proof {
                        assert(!(atomic_of(m@[i as int].0) matches Some(k2) && k2 <= len));
                    }
                    return None;
                }
            },
            None => {
                proof {
                    assert(atomic_of(m@[i as int].0) matches Some(k) ==> k > u32::MAX);
                    assert(!(atomic_of(m@[i as int].0) matches Some(k2) && k2 <= len));
                }
                return None;
            },
        }
        i = i + 1;
    }
    Some(len as usize)
}

/// The signed decimal digits of `n`.
pub fn signed_digits(n: i32) -> (r: Vec<char>)
    ensures
        r@ == signed_decimal(n.unsigned()),
{
    if n >= 0 {
        decimal_digits(n as u32)
    } else {
        let m: i64 = -(n as i64);
        let mut out: Vec<char> = Vec::new();
        push_str(&mut out, "-");
        let mut digits = decimal_digits(m as u32);
        out.append(&mut digits);
        out
    }
}

/// Whether the keys `0..m.len()` are all present, each a 32-bit number.
pub fn is_index_shaped(m: &L) -> (r: bool)
    ensures
        r == index_shape(m@),
{
    let n = m.len();
    if n as u64 > 0x1_0000_0000 {
        return false;
    }
    let mut i: u64 = 0;
    while i < n as u64
        invariant
            n == m@.len(),
            n <= 0x1_0000_0000,
            i <= n,
            forall|j: nat| j < i ==> (#[trigger] lookup(m@, int_val(j))) is Some,
        decreases n - i,
    {
        let key = V::from_prim(i as u32);
        proof {
            assert(key@ == int_val(i as nat));
        }
        if !m.contains_key(&key) {
            return false;
        }
        i = i + 1;
    }
    true
}

/// The text of a value: a number as a signed decimal, the empty map as `{}`, a list
/// of printable character numbers as a quoted string, another list in brackets, and
/// any other map in braces.
pub fn print_value(v: &V) -> (r: Vec<char>)
    ensures
        r@ == render(v@),
    decreases v@, 2int,
{
    let m = match &v.0 {
        None => {
            let mut out = Vec::new();
            push_str(&mut out, "<self>");
            return out;
        },
        Some(m) => m,
    };
    proof {
        lemma_view_node(*m);
    }
    if let Some(n) = v.try_to_prim::<i32>() {
        return signed_digits(n);
    }
    if m.is_empty() {
        let mut out = Vec::new();
        push_str(&mut out, "{}");
        return out;
    }
    if let Some(t) = crate::text::value_as_string(v) {
        let mut ok = true;
        let mut i: usize = 0;
        while i < t.len()
            invariant
                i <= t@.len(),
                ok == forall|j: int| 0 <= j < i ==> ' ' <= #[trigger] t@[j] && t@[j] <= '~',
            decreases t@.len() - i,
        {
            if !(' ' <= t[i] && t[i] <= '~') {
                ok = false;
            }
            i = i + 1;
        }
        if ok {
            return quote_string(&t, false);
        }
    }
    if is_index_shaped(m) {
        let mut out = Vec::new();
        push_str(&mut out, "[");
        let mut items = print_list(v, m, m.len() as u64);
        out.append(&mut items);
        push_str(&mut out, "]");
        return out;
    }
    let mut out = Vec::new();
    push_str(&mut out, "{");
    let mut items = print_map(v, m);
    out.append(&mut items);
    push_str(&mut out, "}");
    out
}

/// The text of the value under `k` in `m`, or of the empty value.
fn print_item(v: &V, m: &L, k: &V) -> (r: Vec<char>)
    requires
        v@ == Val::Node(m@),
    ensures
        r@ == render_item(v@, k@),
    decreases v@, 0int,
{
    match m.get(k) {
        Some(x) => {
            proof {
                lemma_find(m@, k@);
                let j = find(m@, k@)->0;
                assert(decreases_to!(v@ => m@[j].1));
            }
            print_value(x)
        },
        None => {
            let mut out = Vec::new();
            push_str(&mut out, "<self>");
            out
        },
    }
}

/// The items `0..n` of a list, separated by commas.
fn print_list(v: &V, m: &L, n: u64) -> (r: Vec<char>)
    requires
        v@ == Val::Node(m@),
        n <= 0x1_0000_0000,
    ensures
        r@ == render_list(v@, n as nat),
    decreases v@, 1int,
{
    let mut out: Vec<char> = Vec::new();
    let mut i: u64 = 0;
    while i < n
        invariant
            i <= n,
            n <= 0x1_0000_0000,
            v@ == Val::Node(m@),
            out@ == render_list(v@, i as nat),
        decreases n - i,
    {
        if i > 0 {
            push_str(&mut out, ", ");
        }
        let key = V::from_prim(i as u32);
        proof {
            assert(key@ == int_val(i as nat));
        }
        let mut item = print_item(v, m, &key);
        out.append(&mut item);
        i = i + 1;
    }
    out
}

/// The entries of a map as `key: value`, separated by commas.
fn print_map(v: &V, m: &L) -> (r: Vec<char>)
    requires
        v@ == Val::Node(m@),
    ensures
        r@ == render_map(v@, m@.len()),
    decreases v@, 1int,
{
    let entries = m.iter();
    let mut out: Vec<char> = Vec::new();
    let mut i: usize = 0;
    while i < entries.len()
        invariant
            i <= entries@.len(),
            entries@.len() == m@.len(),
            forall|j: int| 0 <= j < entries@.len() ==> ((*entries@[j].0)@, (*entries@[j].1)@) == #[trigger] m@[j],
            v@ == Val::Node(m@),
            out@ == render_map(v@, i as nat),
        decreases entries@.len() - i,
    {
        let (k, x) = entries[i];
        proof {
            assert(((*entries@[i as int].0)@, (*entries@[i as int].1)@) == m@[i as int]);
            assert(decreases_to!(v@ => m@[i as int].0));
            assert(decreases_to!(v@ => m@[i as int].1));
        }
        if i > 0 {
            push_str(&mut out, ", ");
        }
        let mut kt = print_value(k);
        out.append(&mut kt);
        push_str(&mut out, ": ");
        let mut xt = print_value(x);
        out.append(&mut xt);
        i = i + 1;
    }
    out
}

} // verus!
