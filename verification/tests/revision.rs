use larksson::value::{V, L, equals};
use larksson::interp::walk_or_nil;
use larksson::revision::{
    atomic_try_from, AtomicError, Halt, bit_set, from_prim, try_to_prim, get_marked_list_len, _marked_list_len,
    str_to_value, value_as_string, lookup_key, build_path, ensure_path, preinit_ops,
    panic_if_write_path_is_not_dot_sys_dot_x_dot_or_dot_var_dot_whatever, sys_path_refusal, maybe_fire, fire_op,
    execute_an_assignment_which_might_delete_instead_and_might_fire, remove_nested_self_values,
    try_index_path_mut, remove_the_node_at_this_position_by_indexing_into_parent, extract_pair_value,
    Side, Part, Assignment, WithRoot, resolve_dereferencing_via_depth, exec, Diag, iterate_where_self_is_sys_list,
    print_value, is_indexed_marked, InterpError, doing_the_actual_assignment_no_more_checks, chars_to_value,
};
use larksson::revision::lists::{
    MarkedList, SysList, LinkedList, GetList, ValueFromIteratorMarker, ValueIterator, collect_all,
};

fn map_of(pairs: Vec<(V, V)>) -> V {
    V(Some(L::from_entries(pairs)))
}

/// A string of this interpreter: the marked list of its characters' bits.
fn word(s: &str) -> V {
    str_to_value(s)
}

/// A marked list this interpreter can walk.
fn marked(items: Vec<V>) -> V {
    MarkedList::from_iter(items)
}

fn text(r: Result<Vec<char>, Halt>) -> String {
    match r {
        Ok(t) => t.iter().collect(),
        Err(_) => panic!("printing stopped"),
    }
}

#[test]
fn unary_numbers_are_read_or_refused() {
    assert!(matches!(atomic_try_from(&V::atomic(5)), Ok(Ok(5))));
    assert!(matches!(atomic_try_from(&V(None)), Ok(Ok(0))));
    assert!(matches!(atomic_try_from(&V::atomic(1)), Ok(Ok(1))));
    let two = map_of(vec![(V(None), V::atomic(1)), (V::atomic(1), V::atomic(1))]);
    assert!(matches!(atomic_try_from(&two), Ok(Err(AtomicError::MapSizeAboveOne))));
    let other = map_of(vec![(V::atomic(1), V::atomic(1))]);
    assert!(matches!(atomic_try_from(&other), Ok(Err(AtomicError::NoSelfKey))));
    let stuck = map_of(vec![(V(None), V(None))]);
    assert!(matches!(atomic_try_from(&stuck), Err(Halt::SelfUnderSelf)));
}

#[test]
fn numbers_are_system_lists_of_bits() {
    assert!(bit_set(5u8, 0));
    assert!(!bit_set(5u8, 1));
    assert!(bit_set(5u8, 2));
    let v = from_prim(5u8);
    let m = v.0.as_ref().unwrap();
    assert_eq!(m.len(), 8);
    assert!(equals(m.get_atomic(0).unwrap(), &V::atomic(1)));
    assert!(m.get_atomic(1).unwrap().0.is_none());
    assert!(equals(m.get_atomic(2).unwrap(), &V::atomic(1)));
}

#[test]
fn numbers_are_read_from_their_bits() {
    assert!(matches!(try_to_prim::<u8>(&from_prim(5u8)), Ok(Some(5))));
    assert!(matches!(try_to_prim::<u8>(&from_prim(0u8)), Ok(Some(0))));
    assert!(matches!(try_to_prim::<u32>(&from_prim(70000u32)), Ok(Some(70000))));
    assert!(matches!(try_to_prim::<usize>(&from_prim(usize::MAX)), Ok(Some(usize::MAX))));
    assert!(matches!(try_to_prim::<u32>(&V(None)), Ok(None)));
    assert!(matches!(try_to_prim::<u8>(&from_prim(5u32)), Err(Halt::ShiftOverflow)));
    let not_unary = map_of(vec![(V::atomic(1), V::atomic(1)), (V::from_prim(3i32), V::atomic(1))]);
    assert!(matches!(try_to_prim::<u32>(&not_unary), Ok(None)));
    let not_a_bit = map_of(vec![(V::atomic(0), V::atomic(2))]);
    assert!(matches!(try_to_prim::<u32>(&not_a_bit), Ok(None)));
}

#[test]
fn marked_list_length_is_read_from_its_bits() {
    let v = marked(vec![V::atomic(1), V::atomic(2)]);
    assert!(matches!(get_marked_list_len(&v), Ok(Some(2))));
    assert_eq!(_marked_list_len(&v), 2);
    assert!(matches!(get_marked_list_len(&V(None)), Ok(None)));
    let built = MarkedList::from_iter(vec![V::atomic(1)]);
    assert!(matches!(get_marked_list_len(&built), Ok(Some(1))));
    assert!(matches!(get_marked_list_len(&MarkedList::from_iter(vec![])), Ok(Some(0))));
}

#[test]
fn a_marked_list_walk_gives_its_items_and_stops() {
    for n in [0usize, 1, 3, 5] {
        let xs: Vec<V> = (0..n).map(|i| V::atomic(i as u32 + 1)).collect();
        let v = V::list::<MarkedList>(xs.clone());
        let mut it = v.iter::<MarkedList>().ok().unwrap();
        for x in &xs {
            assert!(matches!(it.next(), Ok(Some(ref y)) if equals(y, x)));
        }
        assert!(matches!(it.next(), Ok(None)));
        assert!(matches!(it.next(), Ok(None)));
    }
    let mut gap = L::new();
    gap.insert(V(None), from_prim(3usize));
    gap.insert(from_prim(0usize), V::atomic(4));
    gap.insert(from_prim(2usize), V::atomic(6));
    let g = V(Some(gap));
    let mut it = g.iter::<MarkedList>().ok().unwrap();
    assert!(matches!(it.next(), Ok(Some(ref y)) if equals(y, &V::atomic(4))));
    assert!(matches!(it.next(), Ok(None)));
    assert!(matches!(it.next(), Ok(None)));
}

#[test]
fn walks_over_each_list_kind() {
    let v = marked(vec![V::atomic(3), V::atomic(4)]);
    let mut it = v.iter::<MarkedList>().ok().unwrap();
    let items = collect_all(&mut it).ok().unwrap();
    assert_eq!(items.len(), 2);
    assert!(equals(&items[0], &V::atomic(3)));
    assert!(equals(&items[1], &V::atomic(4)));

    let s = SysList::<true>::from_iter(vec![V::atomic(7), V::atomic(8)]);
    let mut it = s.iter::<SysList<true>>().ok().unwrap();
    assert!(matches!(it.next(), Ok(Some(ref x)) if equals(x, &V::atomic(7))));
    assert!(matches!(it.next(), Ok(Some(ref x)) if equals(x, &V::atomic(8))));
    assert!(matches!(it.next(), Ok(None)));
    assert!(matches!(it.next(), Ok(None)));

    let empty = V(None);
    let mut it = empty.iter::<SysList<true>>().ok().unwrap();
    assert!(matches!(it.next(), Err(Halt::SysListNotMap)));
    let mut it = empty.iter::<SysList<false>>().ok().unwrap();
    assert!(matches!(it.next(), Ok(None)));

    let l = LinkedList::from_iter(vec![V::atomic(1), V::atomic(1)]);
    let mut it = l.iter::<LinkedList>().ok().unwrap();
    let items = collect_all(&mut it).ok().unwrap();
    assert_eq!(items.len(), 2);
    assert!(equals(&items[0], &V::atomic(1)));
    assert!(equals(&items[1], &V::atomic(1)));
    let l = LinkedList::from_iter(vec![word("a"), word("b"), word("c")]);
    let mut it = l.iter::<LinkedList>().ok().unwrap();
    let items = collect_all(&mut it).ok().unwrap();
    assert_eq!(items.len(), 3);
    assert!(equals(&items[0], &word("a")));
    assert!(equals(&items[1], &word("b")));
    assert!(equals(&items[2], &word("c")));
}

#[test]
fn lists_are_built_by_kind() {
    let a = V::list::<SysList<true>>(vec![V::atomic(2)]);
    assert!(equals(&a, &V::system_list(vec![V::atomic(2)])));
    let b = V::list::<LinkedList>(vec![V::atomic(2)]);
    assert!(equals(&b, &V::linked_list(vec![V::atomic(2)])));
    let c = V::list::<MarkedList>(vec![V::atomic(2)]);
    let m = c.0.as_ref().unwrap();
    assert_eq!(m.len(), 2);
    assert!(equals(m.get(&from_prim(0usize)).unwrap(), &V::atomic(2)));
    assert!(equals(m.get_self().unwrap(), &from_prim(1usize)));
}

#[test]
fn list_strings_read_back() {
    assert!(matches!(value_as_string(&str_to_value("ab")), Ok(Some(ref t)) if *t == vec!['a', 'b']));
    assert!(matches!(value_as_string(&str_to_value("")), Ok(Some(ref t)) if t.is_empty()));
    assert!(matches!(value_as_string(&str_to_value("héllo")), Ok(Some(ref t)) if *t == "héllo".chars().collect::<Vec<_>>()));
    assert!(matches!(value_as_string(&V(None)), Ok(None)));
    let main_style = larksson::text::chars_to_value(&vec!['a']);
    assert!(matches!(value_as_string(&main_style), Ok(None)));
    let extra = V::list::<MarkedList>(vec![from_prim(97u32), from_prim(0xD800u32)]);
    assert!(matches!(value_as_string(&extra), Ok(None)));
    assert!(equals(&chars_to_value(&vec!['a', 'b']), &str_to_value("ab")));
}

#[test]
fn string_keys_and_paths() {
    let mut m = L::new();
    m.insert(str_to_value("left"), V::atomic(3));
    let v = V(Some(m));
    assert!(equals(&lookup_key(&v, "left"), &V::atomic(3)));
    assert!(lookup_key(&v, "right").0.is_none());
    let p = build_path(&vec![vec!['o', 'p', 's']]);
    assert!(equals(&p, &V::linked_list(vec![str_to_value("ops")])));
    let mut root = V(None);
    ensure_path(&mut root, &vec![vec!['a'], vec!['b']], V::atomic(4));
    assert!(equals(&walk_or_nil(&root, &vec![str_to_value("a"), str_to_value("b")]), &V::atomic(4)));
    let mut root = V(None);
    doing_the_actual_assignment_no_more_checks(&mut root, vec![V::atomic(2)], V::atomic(5));
    assert!(equals(&walk_or_nil(&root, &vec![V::atomic(2)]), &V::atomic(5)));
}

#[test]
fn preinit_gives_triggers() {
    let mut root = V(None);
    preinit_ops(&mut root);
    for name in ["add", "run"] {
        let c = vec![str_to_value("ops"), str_to_value(name), str_to_value("trigger")];
        assert!(equals(&walk_or_nil(&root, &c), &V(Some(L::new()))));
    }
}

#[test]
fn write_paths_go_to_var_or_sys_run() {
    let check = |names: &[&str]| sys_path_refusal(&names.iter().map(|n| word(n)).collect());
    assert!(matches!(check(&["var"]), Ok(())));
    assert!(matches!(check(&["var", "x", "y"]), Ok(())));
    assert!(matches!(check(&["sys", "run"]), Ok(())));
    assert!(matches!(check(&["sys"]), Err(Halt::SysDirect)));
    assert!(matches!(check(&["sys", "add"]), Err(Halt::SysNotRun)));
    assert!(matches!(check(&[]), Err(Halt::CannotReplaceRoot)));
    assert!(matches!(check(&["ops"]), Err(Halt::ForbiddenNamespace(ref n)) if *n == vec!['o', 'p', 's']));
    let odd = sys_path_refusal(&vec![V::atomic(1)]);
    assert!(matches!(odd, Err(Halt::NamespaceNotString)));
    let odd = sys_path_refusal(&vec![word("sys"), V::atomic(1)]);
    assert!(matches!(odd, Err(Halt::SysNameNotString)));
    panic_if_write_path_is_not_dot_sys_dot_x_dot_or_dot_var_dot_whatever(&vec![word("var"), word("x")]);
    panic_if_write_path_is_not_dot_sys_dot_x_dot_or_dot_var_dot_whatever(&vec![word("sys"), word("run")]);
}

#[test]
fn only_sys_run_fires_and_firing_stops() {
    let mut root = V(None);
    assert!(matches!(maybe_fire(&mut root, &vec![word("var"), word("run")], &V(None)), Ok(Ok(()))));
    assert!(matches!(maybe_fire(&mut root, &vec![word("sys"), word("run")], &V(None)), Err(Halt::FiringUnsupported)));
    assert!(matches!(fire_op(&mut root, &V(None)), Err(Halt::FiringUnsupported)));
}

#[test]
fn nested_empty_values_are_removed() {
    let inner = map_of(vec![(V::atomic(3), V(None)), (V::atomic(4), V::atomic(1))]);
    let mut v = map_of(vec![(V::atomic(1), V(None)), (V::atomic(2), inner)]);
    remove_nested_self_values(&mut v);
    let expected = map_of(vec![(V::atomic(2), map_of(vec![(V::atomic(4), V::atomic(1))]))]);
    assert!(equals(&v, &expected));
}

#[test]
fn assignment_writes_reads_and_removes() {
    let mut root = V(None);
    let path = marked(vec![word("var"), word("x")]);
    let val = map_of(vec![(V::atomic(1), V(None)), (V::atomic(2), V::atomic(5))]);
    let r = execute_an_assignment_which_might_delete_instead_and_might_fire(&mut root, &path, val);
    assert!(matches!(r, Ok(Ok(()))));
    let got = walk_or_nil(&root, &vec![word("var"), word("x")]);
    assert!(equals(&got, &map_of(vec![(V::atomic(2), V::atomic(5))])));
    let r = execute_an_assignment_which_might_delete_instead_and_might_fire(&mut root, &path, V(None));
    assert!(matches!(r, Ok(Ok(()))));
    assert!(walk_or_nil(&root, &vec![word("var"), word("x")]).0.is_none());
    let sys = marked(vec![word("sys"), word("run")]);
    let r = execute_an_assignment_which_might_delete_instead_and_might_fire(&mut root, &sys, V::atomic(1));
    assert!(matches!(r, Err(Halt::FiringUnsupported)));
    let r = execute_an_assignment_which_might_delete_instead_and_might_fire(&mut root, &V(None), V::atomic(1));
    assert!(matches!(r, Err(Halt::CannotReplaceRoot)));
}

#[test]
fn indexing_into_a_path_and_removing_through_the_parent() {
    let mut root = V(None);
    larksson::interp::write_path(&mut root, &vec![V::atomic(1), V::atomic(2)], V::atomic(3));
    {
        let slot = try_index_path_mut(&mut root, &vec![V::atomic(1), V::atomic(2)], 0, 2).unwrap();
        *slot = V::atomic(9);
    }
    assert!(equals(&walk_or_nil(&root, &vec![V::atomic(1), V::atomic(2)]), &V::atomic(9)));
    assert!(try_index_path_mut(&mut root, &vec![V::atomic(1), V::atomic(5)], 0, 2).is_none());
    remove_the_node_at_this_position_by_indexing_into_parent(&mut root, &vec![V::atomic(1), V::atomic(2)]);
    assert!(walk_or_nil(&root, &vec![V::atomic(1), V::atomic(2)]).0.is_none());
    assert!(equals(&walk_or_nil(&root, &vec![V::atomic(1)]), &V(Some(L::new()))));
}

#[test]
fn statements_are_read_side_by_side() {
    let side = V::system_list(vec![V::atomic(4), V::atomic(2)]);
    assert!(matches!(extract_pair_value(&side, Side::Lhs), Ok((ref x, 2)) if equals(x, &V::atomic(4))));
    assert!(matches!(extract_pair_value(&V(None), Side::Rhs), Err(Halt::SideNotMap(Side::Rhs))));
    let no_depth = V::system_list(vec![V::atomic(4)]);
    assert!(matches!(extract_pair_value(&no_depth, Side::Lhs), Ok((ref x, 0)) if equals(x, &V::atomic(4))));
    let no_expr = map_of(vec![(V::atomic(1), V::atomic(1))]);
    assert!(matches!(extract_pair_value(&no_expr, Side::Lhs), Err(Halt::SideMissing(Side::Lhs, Part::Expr))));
    let bad_depth = V::system_list(vec![V::atomic(4), V::from_prim(3i32)]);
    assert!(matches!(extract_pair_value(&bad_depth, Side::Rhs), Err(Halt::BadDepth(Side::Rhs))));

    assert!(matches!(Assignment::resolve_from_value(&V(None)), Err(Halt::AssignmentNotMap)));
    assert!(matches!(Assignment::resolve_from_value(&V(Some(L::new()))), Err(Halt::NoLhs)));
    assert!(matches!(Assignment::resolve_from_value(&V::system_list(vec![side.clone()])), Err(Halt::NoRhs)));
    let stmt = V::system_list(vec![side.clone(), V::system_list(vec![V::atomic(6), V::atomic(0)])]);
    match Assignment::resolve_from_value(&stmt) {
        Ok(a) => {
            assert_eq!(a.lhs_depth, 2);
            assert_eq!(a.rhs_depth, 0);
            assert!(equals(&a.rhs_path, &V::atomic(6)));
        },
        Err(_) => panic!("statement not read"),
    }
}

#[test]
fn dereferencing_follows_linked_paths() {
    let mut root = V(None);
    larksson::interp::write_path(&mut root, &vec![V::atomic(2)], V::atomic(7));
    let path = V::linked_list(vec![V::atomic(2)]);
    let got = WithRoot { item: path.clone(), root: &root }.resolve_dereferencing(1);
    assert!(equals(&got, &V::atomic(7)));
    let mut cur = path.clone();
    resolve_dereferencing_via_depth(&mut cur, &root, 0);
    assert!(equals(&cur, &path));
    let a = Assignment { lhs_path: path.clone(), lhs_depth: 1, rhs_path: V::atomic(3), rhs_depth: 0 };
    let (l, r) = a.resolve(&root).into_inner();
    assert!(equals(&l, &V::atomic(7)));
    assert!(equals(&r, &V::atomic(3)));
}

#[test]
fn programs_run_statement_by_statement() {
    let mut root = V(None);
    let mut log: Vec<Diag> = Vec::new();
    assert!(matches!(exec(&mut root, &V(None), &mut log), Err(Halt::SysListNotMap)));
    assert!(matches!(exec(&mut root, &V(Some(L::new())), &mut log), Ok(Ok(()))));
    let path = marked(vec![word("var"), word("x")]);
    let stmt = V::system_list(vec![
        V::system_list(vec![path, V::atomic(0)]),
        V::system_list(vec![V::atomic(5), V::atomic(0)]),
    ]);
    let program = V::system_list(vec![stmt]);
    assert!(matches!(exec(&mut root, &program, &mut log), Ok(Ok(()))));
    assert!(log.is_empty());
    assert!(equals(&walk_or_nil(&root, &vec![word("var"), word("x")]), &V::atomic(5)));
    let bad = V::system_list(vec![V(None)]);
    assert!(matches!(exec(&mut root, &bad, &mut log), Err(Halt::AssignmentNotMap)));
    assert!(iterate_where_self_is_sys_list::<true>(&V(None)).is_err());
    assert!(iterate_where_self_is_sys_list::<false>(&V(None)).is_ok());
    let _ = InterpError::MalformedStatement;
}

#[test]
fn values_print_through_this_reading() {
    assert_eq!(text(print_value(&V(None))), "<self>");
    assert_eq!(text(print_value(&V::atomic(3))), "*3");
    assert_eq!(text(print_value(&from_prim(5u8))), "5");
    assert_eq!(text(print_value(&from_prim(5u32))), "5");
    assert_eq!(text(print_value(&from_prim(0u32))), "0");
    let list = V::system_list(vec![from_prim(6u8), from_prim(5u8)]);
    assert_eq!(text(print_value(&list)), "[6, 5]");
    let other = map_of(vec![(from_prim(3u8), V::atomic(2))]);
    assert_eq!(text(print_value(&other)), "{3: *2}");
    let stuck = map_of(vec![(V(None), V(None))]);
    assert!(matches!(print_value(&stuck), Err(Halt::SelfUnderSelf)));
    let m = map_of(vec![(V(None), V::atomic(2)), (V::atomic(1), from_prim(6u8))]);
    assert!(matches!(is_indexed_marked(m.0.as_ref().unwrap()), Ok(Some(2))));
}

#[test]
fn sources_are_read_with_this_encoding() {
    let got = |src: &str| match larksson::revision::parse_source(src) {
        Ok(v) => v,
        Err(_) => panic!("source did not parse"),
    };
    assert!(equals(&got("5"), &from_prim(5i32)));
    assert!(equals(&got("'a'"), &from_prim(97u32)));
    assert!(equals(&got("\"ab\""), &str_to_value("ab")));
    assert!(equals(&got("ab"), &str_to_value("ab")));
    assert!(equals(&got("[97, 98]"), &str_to_value("ab")));
    assert!(equals(&got("[*1]"), &MarkedList::from_iter(vec![V::atomic(1)])));
    assert!(equals(&got(".a."), &LinkedList::from_iter(vec![str_to_value("a")])));
    let program = got("lines!\n*2 = 5");
    let stmt = V::system_list(vec![
        V::system_list(vec![V::atomic(2), V::atomic(0)]),
        V::system_list(vec![from_prim(5i32), V::atomic(0)]),
    ]);
    assert!(equals(&program, &V::system_list(vec![stmt])));
}

#[test]
fn sides_without_depth_are_eager() {
    let l = V::list::<LinkedList>(vec![str_to_value("var"), str_to_value("a")]);
    let r = V::atomic(3);
    let value = V::list::<SysList<true>>(vec![
        V::list::<SysList<true>>(vec![l.clone()]),
        V::list::<SysList<true>>(vec![r.clone()]),
    ]);
    match Assignment::resolve_from_value(&value) {
        Ok(a) => {
            assert!(equals(&a.lhs_path, &l));
            assert!(equals(&a.rhs_path, &r));
            assert_eq!(a.lhs_depth, 0);
            assert_eq!(a.rhs_depth, 0);
        },
        Err(_) => panic!("statement not read"),
    }
}

#[test]
fn depth_one_reads_the_value_at_a_dot_path() {
    let mut root = V(None);
    larksson::interp::write_path(&mut root, &vec![str_to_value("var"), str_to_value("x")], V::atomic(5));
    let p = V::list::<LinkedList>(vec![str_to_value("var"), str_to_value("y")]);
    let a = Assignment {
        lhs_path: p.clone(),
        lhs_depth: 0,
        rhs_path: V::list::<LinkedList>(vec![str_to_value("var"), str_to_value("x")]),
        rhs_depth: 1,
    };
    let (l, r) = a.resolve(&root).into_inner();
    assert!(equals(&l, &p));
    assert!(equals(&r, &V::atomic(5)));
}
