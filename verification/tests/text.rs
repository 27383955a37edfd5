use larksson::value::{V, L, equals};
use larksson::text::{char_from_u32, chars_of, same_chars, chars_to_value, str_to_value, value_as_string, lookup_str};

#[test]
fn char_from_u32_refuses_surrogates() {
    assert_eq!(char_from_u32(97), Some('a'));
    assert_eq!(char_from_u32(0xD800), None);
    assert_eq!(char_from_u32(0x110000), None);
    assert_eq!(char_from_u32(0x10FFFF), Some('\u{10FFFF}'));
}

#[test]
fn chars_of_and_same_chars() {
    assert_eq!(chars_of("héllo"), vec!['h', 'é', 'l', 'l', 'o']);
    assert!(same_chars(&vec!['o', 'p', 's'], "ops"));
    assert!(!same_chars(&vec!['o', 'p'], "ops"));
    assert!(!same_chars(&vec!['o', 'p', 't'], "ops"));
}

#[test]
fn str_to_value_keys_codes_by_position() {
    let v = str_to_value("hi");
    let m = v.0.as_ref().unwrap();
    assert_eq!(m.len(), 2);
    assert!(equals(m.get(&V::from_prim(0i32)).unwrap(), &V::from_prim('h' as i32)));
    assert!(equals(m.get(&V::from_prim(1i32)).unwrap(), &V::from_prim('i' as i32)));
    assert!(equals(&chars_to_value(&vec!['h', 'i']), &v));
    let arr = V::index_list(vec![V::from_prim(104i32), V::from_prim(105i32)]);
    assert!(equals(&arr, &v));
}

#[test]
fn strings_read_back() {
    assert_eq!(value_as_string(&str_to_value("ops")), Some(vec!['o', 'p', 's']));
    assert_eq!(value_as_string(&str_to_value("héllo")), Some(chars_of("héllo")));
    assert_eq!(value_as_string(&str_to_value("")), Some(vec![]));
}

#[test]
fn value_as_string_refuses_other_shapes() {
    assert_eq!(value_as_string(&V(None)), None);
    assert_eq!(value_as_string(&V::from_prim(5i32)), None);
    let mut m = L::new();
    m.insert(V::from_prim(0i32), V::from_prim(0xD800u32));
    assert_eq!(value_as_string(&V(Some(m))), None);
    let mut g = L::new();
    g.insert(V::from_prim(1i32), V::from_prim(97i32));
    assert_eq!(value_as_string(&V(Some(g))), None);
    let mut n = L::new();
    n.insert(V::from_prim(0i32), str_to_value("a"));
    assert_eq!(value_as_string(&V(Some(n))), None);
}

#[test]
fn lookup_str_finds_string_keys() {
    let mut m = L::new();
    m.insert(str_to_value("left"), V::atomic(3));
    let v = V(Some(m));
    assert_eq!(lookup_str(&v, "left").try_atomic_to_u32(), Some(3));
    assert!(lookup_str(&v, "right").0.is_none());
    assert!(lookup_str(&V(None), "left").0.is_none());
}
