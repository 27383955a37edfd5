use larksson::value::{V, L};
use larksson::render::{
    print_value, decimal_digits, quote_string, is_indexed_marked, is_indexed_unmarked, signed_digits,
    is_index_shaped,
};
use larksson::text::str_to_value;

fn text(v: &V) -> String {
    print_value(v).iter().collect()
}

fn list(items: Vec<V>) -> V {
    V::index_list(items)
}

#[test]
fn empty_value_prints_as_self() {
    assert_eq!(text(&V(None)), "<self>");
}

#[test]
fn empty_map_prints_in_braces() {
    assert_eq!(text(&V(Some(L::new()))), "{}");
    assert_eq!(text(&V::atomic(1)), "{}");
}

#[test]
fn numbers_print_as_signed_decimals() {
    assert_eq!(text(&V::from_prim(5i32)), "5");
    assert_eq!(text(&V::from_prim(0i32)), "0");
    assert_eq!(text(&V::from_prim(-7i32)), "-7");
    assert_eq!(text(&V::from_prim(-1i32)), "-1");
    assert_eq!(text(&V::from_prim(i32::MIN)), "-2147483648");
    assert_eq!(text(&V::from_prim(i32::MAX)), "2147483647");
    assert_eq!(text(&V::from_prim(1234567u32)), "1234567");
}

#[test]
fn printable_strings_print_quoted() {
    assert_eq!(text(&str_to_value("hello")), "\"hello\"");
    assert_eq!(text(&str_to_value("a b")), "\"a b\"");
    assert_eq!(text(&str_to_value("~")), "\"~\"");
}

#[test]
fn lists_of_other_numbers_print_in_brackets() {
    let v = list(vec![V::from_prim(1i32), V::from_prim(2i32), V::from_prim(3i32)]);
    assert_eq!(text(&v), "[1, 2, 3]");
    let w = list(vec![V::from_prim(10i32)]);
    assert_eq!(text(&w), "[10]");
    let x = list(vec![str_to_value("a"), V(Some(L::new()))]);
    assert_eq!(text(&x), "[\"a\", {}]");
}

#[test]
fn other_maps_print_in_braces() {
    let mut m = L::new();
    m.insert(V::from_prim(1i32), V::from_prim(2i32));
    m.insert(V::from_prim(3i32), V::from_prim(4i32));
    assert_eq!(text(&V(Some(m))), "{1: 2, 3: 4}");
    let mut n = L::new();
    n.insert(str_to_value("bar"), V::from_prim(5i32));
    assert_eq!(text(&V(Some(n))), "{\"bar\": 5}");
}

#[test]
fn decimal_digits_of_numbers() {
    assert_eq!(decimal_digits(0), vec!['0']);
    assert_eq!(decimal_digits(907), vec!['9', '0', '7']);
    assert_eq!(decimal_digits(u32::MAX).iter().collect::<String>(), "4294967295");
}

#[test]
fn signed_digits_of_numbers() {
    assert_eq!(signed_digits(42).iter().collect::<String>(), "42");
    assert_eq!(signed_digits(-42).iter().collect::<String>(), "-42");
    assert_eq!(signed_digits(i32::MIN).iter().collect::<String>(), "-2147483648");
}

#[test]
fn quoting() {
    let t = vec!['a', ' '];
    assert_eq!(quote_string(&t, true), t);
    assert_eq!(quote_string(&t, false), vec!['"', 'a', ' ', '"']);
}

#[test]
fn index_shapes() {
    let mut m = L::new();
    m.insert(V(None), V::atomic(3));
    m.insert(V::atomic(2), V::atomic(1));
    assert_eq!(is_indexed_marked(&m), Some(3));
    assert!(!is_indexed_unmarked(&m));
    m.insert(V::atomic(4), V::atomic(1));
    assert_eq!(is_indexed_marked(&m), None);
    let mut u = L::new();
    u.insert(V::atomic(0), V::atomic(5));
    u.insert(V::atomic(1), V::atomic(5));
    assert!(is_indexed_unmarked(&u));
    assert!(is_indexed_unmarked(&L::new()));
    let s = str_to_value("ab");
    assert!(is_index_shaped(s.0.as_ref().unwrap()));
    let mut g = L::new();
    g.insert(V::from_prim(1i32), V::from_prim(0i32));
    assert!(!is_index_shaped(&g));
}
