//! Strings: how text is written as values and read back.
use vstd::prelude::*;
use crate::order::{Val, lookup};
use crate::value::{V, lemma_view_node, views, lemma_views_push};
use crate::encode::{decode_prim, prim_val, int_val, index_val, Primitive};

verus! {

/// Whether `c` is the number of a Unicode scalar value.
pub open spec fn valid_code(c: nat) -> bool {
    c <= 0x10FFFF && !(0xD800 <= c && c <= 0xDFFF)
}

/// A character written as its number.
pub open spec fn char_val(c: char) -> Val {
    prim_val((c as u32) as nat, 32, 32)
}

/// The characters of a string written as values.
pub open spec fn char_vals(cs: Seq<char>) -> Seq<Val> {
    Seq::new(cs.len(), |i: int| char_val(cs[i]))
}

/// A string: the list of its characters, each under its position.
pub open spec fn str_val(cs: Seq<char>) -> Val {
    index_val(char_vals(cs))
}

/// The characters under the integer keys `0..n`, each a valid character number.
pub open spec fn chars_from(s: Seq<(Val, Val)>, n: nat) -> Option<Seq<char>>
    decreases n,
{
    if n == 0 {
        Some(Seq::empty())
    } else {
        match chars_from(s, (n - 1) as nat) {
            None => None,
            Some(p) => match lookup(s, int_val((n - 1) as nat)) {
                None => None,
                Some(y) => match decode_prim(y, 32) {
                    None => None,
                    Some(c) => if valid_code(c) { Some(p.push((c as u32) as char)) } else { None },
                },
            },
        }
    }
}

/// The string a map spells: each of its `n` entries is a character number under
/// one of the integers `0..n`.
pub open spec fn string_of(v: Val) -> Option<Seq<char>> {
    match v {
        Val::Nil => None,
        Val::Node(s) => if s.len() > 0x1_0000_0000 { None } else { chars_from(s, s.len()) },
    }
}

/// Calls `char::from_u32`. Trusted to give a character exactly when `x` is the
/// number of a Unicode scalar value (at most 0x10FFFF and not a surrogate), and
/// then the character whose number is `x`.
#[verifier::external_body]
pub fn char_from_u32(x: u32) -> (r: Option<char>)
    ensures
        (r is Some) == valid_code(x as nat),
        r matches Some(c) ==> c as u32 == x,
{
    char::from_u32(x)
}

/// The characters of a string slice.
pub fn chars_of(s: &str) -> (r: Vec<char>)
    ensures
        r@ == s@,
{
    let n = s.unicode_len();
    let mut out: Vec<char> = Vec::new();
    let mut i: usize = 0;
    while i < n
        invariant
            n == s@.len(),
            i <= n,
            out@ == s@.take(i as int),
        decreases n - i,
    {
        out.push(s.get_char(i));
        proof {
            assert(out@ =~= s@.take(i + 1));
        }
        i = i + 1;
    }
    proof {
        assert(s@.take(n as int) =~= s@);
    }
    out
}

/// Whether a character list equals a string slice.
pub fn same_chars(a: &Vec<char>, b: &str) -> (r: bool)
    ensures
        r == (a@ == b@),
{
    let bs = chars_of(b);
    if a.len() != bs.len() {
        return false;
    }
    let mut i: usize = 0;
    while i < a.len()
        invariant
            a@.len() == bs@.len(),
            bs@ == b@,
            i <= a@.len(),
            forall|j: int| 0 <= j < i ==> a@[j] == bs@[j],
        decreases a@.len() - i,
    {
        if a[i] != bs[i] {
            return false;
        }
        i = i + 1;
    }
    proof {
        assert(a@ =~= bs@);
    }
    true
}

/// The string of the given characters.
pub fn chars_to_value(cs: &Vec<char>) -> (r: V)
    ensures
        r@ == str_val(cs@),
{
    let n = cs.len();
    let mut items: Vec<V> = Vec::new();
    let mut i: usize = 0;
    while i < n
        invariant
            n == cs@.len(),
            i <= n,
            views(items@) == char_vals(cs@).take(i as int),
        decreases n - i,
    {
        let c = cs[i];
        let ghost before = items@;
        let x = V::from_prim(c as u32);
        proof {
            assert(x@ == char_val(c));
        }
        items.push(x);
        proof {
            lemma_views_push(before, x);
            assert(char_vals(cs@).take(i + 1) =~= char_vals(cs@).take(i as int).push(char_val(cs@[i as int])));
        }
        i = i + 1;
    }
    proof {
        assert(char_vals(cs@).take(n as int) =~= char_vals(cs@));
    }
    V::index_list(items)
}

/// The string of a string slice.
pub fn str_to_value(s: &str) -> (r: V)
    ensures
        r@ == str_val(s@),
{
    chars_to_value(&chars_of(s))
}

/// The string a value spells, if it spells one.
pub fn value_as_string(v: &V) -> (r: Option<Vec<char>>)
    ensures
        match r {
            Some(cs) => string_of(v@) == Some(cs@),
            None => string_of(v@) is None,
        },
{
    let m = match &v.0 {
        Some(m) => m,
        None => return None,
    };
    proof {
        lemma_view_node(*m);
    }
    let n = m.len();
    if (n as u64) > 0x1_0000_0000 {
        return None;
    }
    let ghost s = m@;
    let mut out: Vec<char> = Vec::new();
    let mut i: u64 = 0;
    while i < n as u64
        invariant
            i <= n,
            n == s.len(),
            n <= 0x1_0000_0000,
            s == m@,
            string_of(v@) == chars_from(s, n as nat),
            chars_from(s, i as nat) == Some(out@),
        decreases n - i,
    {
        let y = match m.get(&V::from_prim(i as u32)) {
            Some(y) => y,
            None => {
                proof {
                    lemma_chars_from_none(s, (i + 1) as nat, n as nat);
                }
                return None;
            },
        };
        let code: u32 = match y.try_to_prim::<u32>() {
            Some(c) => c,
            None => {
                proof {
                    lemma_chars_from_none(s, (i + 1) as nat, n as nat);
                }
                return None;
            },
        };
        let c = match char_from_u32(code) {
            Some(c) => c,
            None => {
                proof {
                    lemma_chars_from_none(s, (i + 1) as nat, n as nat);
                }
                return None;
            },
        };
        proof {
            vstd::utf8::char_u32_cast(c, code);
            assert(((code as nat) as u32) as char == c);
        }
        out.push(c);
        i = i + 1;
    }
    Some(out)
}

/// Once reading characters fails, reading further fails too.
pub proof fn lemma_chars_from_none(s: Seq<(Val, Val)>, n: nat, m: nat)
    requires
        n <= m,
        chars_from(s, n) is None,
    ensures
        chars_from(s, m) is None,
    decreases m,
{
    if n < m {
        lemma_chars_from_none(s, n, (m - 1) as nat);
    }
}

/// The value stored under the string `key`, or the empty value.
pub fn lookup_str(v: &V, key: &str) -> (r: V)
    ensures
        r@ == match v@ {
            Val::Node(s) => match lookup(s, str_val(key@)) {
                Some(x) => x,
                None => Val::Nil,
            },
            Val::Nil => Val::Nil,
        },
{
    match &v.0 {
        Some(m) => {
            proof {
                lemma_view_node(*m);
            }
            match m.get(&str_to_value(key)) {
                Some(x) => x.clone(),
                None => V(None),
            }
        },
        None => V(None),
    }
}

} // verus!
