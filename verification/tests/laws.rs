use larksson::value::{V, L, equals};
use larksson::parse::parse_source;
use larksson::render::print_value;
use larksson::text::{str_to_value, value_as_string, chars_of};
use larksson::interp::{iterate_marked, write_path, walk, assign, Diag, exec, preinit_ops};
use larksson::revision::{atomic_try_from, remove_nested_self_values, from_prim, Assignment};
use larksson::revision::lists::{SysList, collect_all, ValueIterator};

#[test]
fn law_instance_bare_word_equals_quoted_word() {
    for w in ["x", "hello", "abc123", "lines"] {
        let bare = match parse_source(w) {
            Ok(v) => v,
            Err(_) => panic!("word did not parse"),
        };
        let quoted = match parse_source(&format!("\"{}\"", w)) {
            Ok(v) => v,
            Err(_) => panic!("quoted word did not parse"),
        };
        assert!(equals(&bare, &quoted));
    }
}

#[test]
fn law_instance_number_round_trip_and_print() {
    for x in [0i32, 1, 9, 10, 99, 100, 65536, -1, -7, -100, i32::MIN, i32::MAX] {
        let v = V::from_prim(x);
        assert_eq!(v.try_to_prim::<i32>(), Some(x));
        let t: String = print_value(&v).iter().collect();
        assert_eq!(t, x.to_string());
    }
    let big = V::from_prim(4000000000u32);
    let t: String = print_value(&big).iter().collect();
    assert_eq!(t, "-294967296");
}

#[test]
fn law_instance_string_round_trip() {
    for s in ["", "a", "hello world", "héllo", "\"quoted\""] {
        assert_eq!(value_as_string(&str_to_value(s)), Some(chars_of(s)));
    }
}

#[test]
fn law_instance_path_reads_back() {
    let items = vec![str_to_value("var"), V::from_prim(3i32), V(Some(L::new()))];
    let got = iterate_marked(&V::index_list(items.clone()));
    assert_eq!(got.len(), 3);
    for (a, b) in got.iter().zip(items.iter()) {
        assert!(equals(a, b));
    }
}

#[test]
fn law_instance_write_then_walk() {
    let mut root = V(None);
    let c = vec![str_to_value("var"), str_to_value("a"), str_to_value("b")];
    write_path(&mut root, &c, V::from_prim(8i32));
    match walk(&root, &c) {
        Ok(v) => assert!(equals(&v, &V::from_prim(8i32))),
        Err(_) => panic!("walk failed"),
    }
}

#[test]
fn law_instance_var_write_reads_back() {
    let mut root = V(Some(L::new()));
    let mut log: Vec<Diag> = Vec::new();
    let p = V::index_list(vec![str_to_value("var"), str_to_value("k")]);
    assert!(matches!(assign(&mut root, &p, str_to_value("v"), 5, &mut log), Ok(Ok(()))));
    assert!(log.is_empty());
    match walk(&root, &iterate_marked(&p)) {
        Ok(v) => assert!(equals(&v, &str_to_value("v"))),
        Err(_) => panic!("walk failed"),
    }
}

#[test]
fn law_instance_unary_numbers_read_back() {
    for n in [0u32, 1, 2, 7, 40] {
        assert!(matches!(atomic_try_from(&V::atomic(n)), Ok(Ok(m)) if m == n));
    }
}

#[test]
fn law_instance_system_list_walk_ends() {
    let v = V::system_list(vec![V::from_prim(1i32), V::from_prim(2i32)]);
    let mut it = v.iter::<SysList<true>>().ok().unwrap();
    let items = collect_all(&mut it).ok().unwrap();
    assert_eq!(items.len(), 2);
    assert!(equals(&items[0], &V::from_prim(1i32)));
    assert!(equals(&items[1], &V::from_prim(2i32)));
    assert!(matches!(it.next(), Ok(None)));
    assert!(matches!(it.next(), Ok(None)));
}

#[test]
fn law_instance_from_prim_injective() {
    assert!(!equals(&V::from_prim(3i32), &V::from_prim(4i32)));
    assert!(equals(&V::from_prim(-1i32), &V::from_prim(u32::MAX)));
    assert!(!equals(&V::from_prim(1u8), &V::from_prim(2u8)));
}

#[test]
fn law_instance_strip_idempotent() {
    let mut inner = L::new();
    inner.insert(V::from_prim(1i32), V::from_prim(2i32));
    let m = L::from_entries(vec![(V::from_prim(0i32), V(None)), (V::from_prim(5i32), V(Some(inner)))]);
    assert_eq!(m.len(), 2);
    let mut v = V(Some(m));
    remove_nested_self_values(&mut v);
    let once = v.clone();
    remove_nested_self_values(&mut v);
    assert!(equals(&v, &once));
    assert_eq!(once.0.as_ref().unwrap().len(), 1);
}

#[test]
fn law_instance_preinit_ops_settles() {
    let mut root = V(Some(L::new()));
    preinit_ops(&mut root);
    let once = root.clone();
    preinit_ops(&mut root);
    assert!(equals(&root, &once));
    for name in ["add", "run"] {
        let c = vec![str_to_value("ops"), str_to_value(name), str_to_value("trigger")];
        match walk(&root, &c) {
            Ok(v) => assert!(equals(&v, &V(Some(L::new())))),
            Err(_) => panic!("walk failed"),
        }
    }
}

#[test]
fn law_instance_program_runs_in_turn() {
    let path = |n: &str| V::index_list(vec![str_to_value("var"), str_to_value(n)]);
    let stmt = |l: V, r: V, rd: u32| {
        V::system_list(vec![V::system_list(vec![l, V::atomic(0)]), V::system_list(vec![r, V::atomic(rd)])])
    };
    let s0 = stmt(path("y"), path("missing"), 1);
    let s1 = stmt(path("x"), V::from_prim(4i32), 0);
    let mut start = V(Some(L::new()));
    preinit_ops(&mut start);
    let mut a = start.clone();
    let mut log_a: Vec<Diag> = Vec::new();
    assert!(matches!(exec(&mut a, &V::system_list(vec![s0.clone(), s1.clone()]), 5, &mut log_a), Ok(Ok(()))));
    let mut b = start.clone();
    let mut log_b: Vec<Diag> = Vec::new();
    assert!(matches!(exec(&mut b, &V::system_list(vec![s0]), 5, &mut log_b), Ok(Ok(()))));
    assert!(matches!(exec(&mut b, &V::system_list(vec![s1]), 5, &mut log_b), Ok(Ok(()))));
    assert!(equals(&a, &b));
    assert_eq!(log_a.len(), 1);
    assert_eq!(log_b.len(), 1);
}

#[test]
fn law_instance_list_numbers_and_statements() {
    assert!(!equals(&from_prim(3u8), &from_prim(4u8)));
    assert!(equals(&from_prim(3u8), &from_prim(3u8)));
    let l = str_to_value("a");
    let r = V::from_prim(7i32);
    let stmt = V::system_list(vec![
        V::system_list(vec![l.clone(), V::atomic(2)]),
        V::system_list(vec![r.clone(), V::atomic(0)]),
    ]);
    match Assignment::resolve_from_value(&stmt) {
        Ok(a) => {
            assert!(equals(&a.lhs_path, &l));
            assert_eq!(a.lhs_depth, 2);
            assert!(equals(&a.rhs_path, &r));
            assert_eq!(a.rhs_depth, 0);
        },
        Err(_) => panic!("statement not read"),
    }
}
