use larksson::value::{V, L, equals};
use larksson::text::str_to_value;
use larksson::parse::parse_source;
use larksson::interp::{
    iterate_marked, walk, walk_or_nil, remove_at, write_path, build_path, check_write_path, validate_trigger_value,
    check_write_value, path_refusal, value_refusal, maybe_fire, fire_op, assign, extract_pair_value, do_set, exec, ensure_path,
    preinit_ops, Abort, Diag, InterpError,
};
use larksson::ops::{op_registry, registered_op_names, op_add, op_run, call_op, op_by_chars, Op};

fn comps(names: &[&str]) -> Vec<V> {
    names.iter().map(|n| str_to_value(n)).collect()
}

fn path(names: &[&str]) -> V {
    V::index_list(comps(names))
}

fn statement(lhs: V, ld: u32, rhs: V, rd: u32) -> V {
    V::system_list(vec![V::system_list(vec![lhs, V::atomic(ld)]), V::system_list(vec![rhs, V::atomic(rd)])])
}

fn num(n: i32) -> V {
    V::from_prim(n)
}

fn empty_map() -> V {
    V(Some(L::new()))
}

fn chars(s: &str) -> Vec<char> {
    s.chars().collect()
}

fn at(root: &V, names: &[&str]) -> V {
    match walk(root, &comps(names)) {
        Ok(v) => v,
        Err(e) => panic!("walk failed: {:?}", e),
    }
}

fn run_source(src: &str) -> (V, Vec<Diag>, Result<Result<(), InterpError>, Abort>) {
    let program = match parse_source(src) {
        Ok(p) => p,
        Err(_) => panic!("program did not parse"),
    };
    let mut root = V(Some(L::new()));
    preinit_ops(&mut root);
    let mut log: Vec<Diag> = Vec::new();
    let r = exec(&mut root, &program, 100, &mut log);
    (root, log, r)
}

#[test]
fn path_components_are_read_in_order() {
    let got = iterate_marked(&path(&["var", "x"]));
    assert_eq!(got.len(), 2);
    assert!(equals(&got[0], &str_to_value("var")));
    assert!(equals(&got[1], &str_to_value("x")));
    assert_eq!(iterate_marked(&V(None)).len(), 0);
    assert_eq!(iterate_marked(&str_to_value("var")).len(), 3);
    let mut gap = L::new();
    gap.insert(num(0), str_to_value("a"));
    gap.insert(num(2), str_to_value("c"));
    assert_eq!(iterate_marked(&V(Some(gap))).len(), 1);
}

#[test]
fn write_then_walk_reads_back() {
    let mut root = V(None);
    let c = comps(&["var", "x"]);
    write_path(&mut root, &c, num(5));
    assert!(equals(&at(&root, &["var", "x"]), &num(5)));
    write_path(&mut root, &c, num(6));
    assert!(equals(&at(&root, &["var", "x"]), &num(6)));
}

#[test]
fn failed_walks_are_errors() {
    let mut root = V(None);
    write_path(&mut root, &comps(&["var", "x"]), num(5));
    assert!(matches!(walk(&root, &comps(&["var", "y"])), Err(InterpError::UndefinedKey)));
    assert!(matches!(walk(&root, &comps(&["var", "x", "y"])), Err(InterpError::NotAMap)));
    assert!(matches!(walk(&V(None), &comps(&["var"])), Err(InterpError::NotAMap)));
    assert!(walk_or_nil(&root, &comps(&["var", "y"])).0.is_none());
}

#[test]
fn write_through_a_number_replaces_it_with_a_map() {
    let mut root = V(None);
    write_path(&mut root, &comps(&["var", "foo"]), num(5));
    write_path(&mut root, &comps(&["var", "foo", "bar"]), num(6));
    let mut only = L::new();
    only.insert(str_to_value("bar"), num(6));
    assert!(equals(&at(&root, &["var", "foo"]), &V(Some(only))));
}

#[test]
fn remove_then_walk_finds_nothing() {
    let mut root = V(None);
    let c = comps(&["var", "x"]);
    write_path(&mut root, &c, num(5));
    write_path(&mut root, &comps(&["var", "y"]), num(7));
    remove_at(&mut root, &c);
    assert!(matches!(walk(&root, &c), Err(InterpError::UndefinedKey)));
    assert!(equals(&at(&root, &["var", "y"]), &num(7)));
    remove_at(&mut root, &comps(&["var", "z", "w"]));
    assert!(equals(&at(&root, &["var", "y"]), &num(7)));
}

#[test]
fn write_paths_are_checked() {
    assert!(matches!(path_refusal(&comps(&["var"])), Ok(())));
    assert!(matches!(path_refusal(&comps(&["ops", "add"])), Ok(())));
    assert!(matches!(path_refusal(&vec![num(1)]), Err(Abort::NamespaceNotString)));
    assert!(matches!(path_refusal(&comps(&["ops"])), Err(Abort::OpsDirect)));
    assert!(matches!(path_refusal(&vec![str_to_value("ops"), V(None)]), Err(Abort::OpNameNotString)));
    match path_refusal(&comps(&["ops", "mul"])) {
        Err(Abort::UnknownOp(n)) => assert_eq!(n, chars("mul")),
        _ => panic!("expected an unknown op"),
    }
    match path_refusal(&comps(&["sys", "run"])) {
        Err(Abort::ForbiddenNamespace(n)) => assert_eq!(n, chars("sys")),
        _ => panic!("expected a forbidden namespace"),
    }
    check_write_path(&comps(&["var", "x"]));
    check_write_path(&comps(&["ops", "run", "args"]));
}

#[test]
fn triggers_may_be_the_empty_map_or_zero() {
    assert!(matches!(validate_trigger_value(&empty_map()), Ok(())));
    assert!(matches!(validate_trigger_value(&num(0)), Ok(())));
    assert!(matches!(validate_trigger_value(&V(None)), Err(Abort::BadTrigger(_))));
    assert!(matches!(validate_trigger_value(&num(1)), Err(Abort::BadTrigger(_))));
}

#[test]
fn written_values_under_ops_are_checked() {
    assert!(matches!(value_refusal(&comps(&["ops", "add"]), &V(None)), Err(Abort::DeleteOp)));
    assert!(matches!(value_refusal(&comps(&["ops", "add", "trigger"]), &V(None)), Err(Abort::RemoveTrigger)));
    assert!(matches!(value_refusal(&comps(&["ops", "add", "trigger"]), &num(5)), Err(Abort::BadTrigger(_))));
    assert!(matches!(value_refusal(&comps(&["ops", "add", "trigger"]), &empty_map()), Ok(())));
    assert!(matches!(value_refusal(&comps(&["ops", "add", "trigger"]), &num(0)), Ok(())));
    let mut record = L::new();
    record.insert(str_to_value("trigger"), num(5));
    assert!(matches!(value_refusal(&comps(&["ops", "add"]), &V(Some(record))), Err(Abort::BadTrigger(_))));
    let mut zero = L::new();
    zero.insert(str_to_value("trigger"), num(0));
    assert!(matches!(value_refusal(&comps(&["ops", "add"]), &V(Some(zero))), Ok(())));
    assert!(matches!(value_refusal(&comps(&["var", "x"]), &V(None)), Ok(())));
    assert!(matches!(value_refusal(&comps(&["ops", "add", "args"]), &V(None)), Ok(())));
    check_write_value(&comps(&["ops", "add", "trigger"]), &num(0));
    check_write_value(&comps(&["var", "x"]), &V(None));
}

#[test]
fn assignment_under_var_reads_back() {
    let mut root = V(None);
    let mut log: Vec<Diag> = Vec::new();
    let r = assign(&mut root, &path(&["var", "x"]), num(5), 10, &mut log);
    assert!(matches!(r, Ok(Ok(()))));
    assert!(log.is_empty());
    assert!(equals(&at(&root, &["var", "x"]), &num(5)));
    let r = assign(&mut root, &path(&["var", "x"]), V(None), 10, &mut log);
    assert!(matches!(r, Ok(Ok(()))));
    assert!(matches!(walk(&root, &comps(&["var", "x"])), Err(InterpError::UndefinedKey)));
}

#[test]
fn assignment_refuses_bad_targets() {
    let mut root = V(None);
    let mut log: Vec<Diag> = Vec::new();
    let rhs = V::system_list(vec![num(1), V::atomic(0)]);
    let no_path = V::system_list(vec![V(None), V::atomic(0)]);
    assert!(matches!(do_set(&mut root, &no_path, &rhs, 10, &mut log), Err(Abort::CannotReplaceRoot)));
    let empty_path = V::system_list(vec![empty_map(), V::atomic(0)]);
    assert!(matches!(do_set(&mut root, &empty_path, &rhs, 10, &mut log), Err(Abort::CannotReplaceRoot)));
    assert!(matches!(assign(&mut root, &path(&["foo"]), num(1), 10, &mut log), Err(Abort::ForbiddenNamespace(_))));
    assert!(matches!(assign(&mut root, &path(&["ops", "add"]), V(None), 10, &mut log), Err(Abort::DeleteOp)));
}

#[test]
fn statement_sides_carry_a_depth() {
    match extract_pair_value(&V::system_list(vec![num(3), V::atomic(2)])) {
        Some((x, d)) => {
            assert!(equals(&x, &num(3)));
            assert_eq!(d, 2);
        },
        None => panic!("expected a side"),
    }
    match extract_pair_value(&V::system_list(vec![num(3)])) {
        Some((_, d)) => assert_eq!(d, 0),
        None => panic!("a missing depth reads as zero"),
    }
    assert!(extract_pair_value(&V(None)).is_none());
}

#[test]
fn a_program_runs_its_statements_in_order() {
    let mut root = V(None);
    preinit_ops(&mut root);
    let program = V::system_list(vec![
        statement(path(&["var", "x"]), 0, num(5), 0),
        statement(path(&["var", "y"]), 0, path(&["var", "x"]), 1),
        statement(path(&["var", "x"]), 0, num(6), 0),
    ]);
    let mut log: Vec<Diag> = Vec::new();
    assert!(matches!(exec(&mut root, &program, 100, &mut log), Ok(Ok(()))));
    assert!(log.is_empty());
    assert!(equals(&at(&root, &["var", "x"]), &num(6)));
    assert!(equals(&at(&root, &["var", "y"]), &num(5)));
}

#[test]
fn malformed_statements_stop_the_run() {
    let mut log: Vec<Diag> = Vec::new();
    let mut root = V(None);
    let bare = V::system_list(vec![V(None)]);
    assert!(matches!(exec(&mut root, &bare, 100, &mut log), Err(Abort::MalformedStatement)));
    let one_side = V::system_list(vec![V::system_list(vec![V::system_list(vec![path(&["var", "x"])])])]);
    assert!(matches!(exec(&mut root, &one_side, 100, &mut log), Err(Abort::MalformedStatement)));
    let empty_side = V::system_list(vec![V::system_list(vec![V(None), V::system_list(vec![num(1)])])]);
    assert!(matches!(exec(&mut root, &empty_side, 100, &mut log), Err(Abort::MalformedStatement)));
    assert!(matches!(exec(&mut root, &V(None), 100, &mut log), Err(Abort::MalformedProgram)));
    assert!(log.is_empty());
}

#[test]
fn a_failed_dereference_is_reported_and_the_run_goes_on() {
    let mut root = V(None);
    let program = V::system_list(vec![
        statement(path(&["var", "y"]), 0, num(1), 0),
        statement(path(&["var", "y"]), 0, path(&["var", "missing"]), 1),
        statement(path(&["var", "z"]), 0, num(2), 1),
        statement(path(&["var", "x"]), 0, num(3), 0),
    ]);
    let mut log: Vec<Diag> = Vec::new();
    assert!(matches!(exec(&mut root, &program, 100, &mut log), Ok(Ok(()))));
    assert_eq!(log.len(), 2);
    assert!(matches!(log[0], Diag::RuntimeError(_, InterpError::UndefinedKey)));
    assert!(matches!(log[1], Diag::RuntimeError(_, InterpError::NotAPath)));
    assert!(equals(&at(&root, &["var", "y"]), &num(1)));
    assert!(equals(&at(&root, &["var", "x"]), &num(3)));
    assert!(matches!(walk(&root, &comps(&["var", "z"])), Err(InterpError::UndefinedKey)));
}

#[test]
fn do_set_dereferences_the_right_side() {
    let mut root = V(None);
    let mut log: Vec<Diag> = Vec::new();
    write_path(&mut root, &comps(&["var", "x"]), num(9));
    let lhs = V::system_list(vec![path(&["var", "y"]), V::atomic(0)]);
    let rhs = V::system_list(vec![path(&["var", "x"]), V::atomic(1)]);
    assert!(matches!(do_set(&mut root, &lhs, &rhs, 10, &mut log), Ok(Ok(()))));
    assert!(equals(&at(&root, &["var", "y"]), &num(9)));
    let bad = V::system_list(vec![path(&["var", "nothing"]), V::atomic(1)]);
    let before = root.clone();
    assert!(matches!(do_set(&mut root, &lhs, &bad, 10, &mut log), Ok(Err(InterpError::UndefinedKey))));
    assert!(equals(&root, &before));
    assert!(matches!(do_set(&mut root, &V(None), &rhs, 10, &mut log), Err(Abort::MalformedStatement)));
}

#[test]
fn a_dot_path_program_runs() {
    let (root, log, r) = run_source("lines!\n.var.x. = 5\n.var.y. <- .var.x.");
    assert!(matches!(r, Ok(Ok(()))));
    assert!(log.is_empty());
    assert!(equals(&at(&root, &["var", "x"]), &num(5)));
    assert!(equals(&at(&root, &["var", "y"]), &num(5)));
}

#[test]
fn the_documented_add_example_stores_five() {
    let src = "lines!\n.ops.add. = { args: { left: 2, right: 3 }, return: 0, trigger: 0 }\n.var.sum. = (.ops.add.return.)";
    let (root, log, r) = run_source(src);
    assert!(matches!(r, Ok(Ok(()))));
    assert!(log.is_empty());
    assert!(equals(&at(&root, &["var", "sum"]), &num(5)));
    assert!(equals(&at(&root, &["ops", "add", "return"]), &num(5)));
}

#[test]
fn a_dereference_takes_a_snapshot() {
    let (root, _, r) = run_source("lines!\n.var.x. = 5\n.var.snapshot. = (.var.x.)\n.var.x. = 99");
    assert!(matches!(r, Ok(Ok(()))));
    assert!(equals(&at(&root, &["var", "snapshot"]), &num(5)));
    assert!(equals(&at(&root, &["var", "x"]), &num(99)));
}

#[test]
fn a_trigger_write_refires_an_op() {
    let src = "lines!\n.ops.add.args. = { left: -7, right: 3 }\n.ops.add.trigger. = 0";
    let (root, _, r) = run_source(src);
    assert!(matches!(r, Ok(Ok(()))));
    assert!(equals(&at(&root, &["ops", "add", "return"]), &num(-4)));
}

#[test]
fn run_executes_a_program_from_the_root() {
    let mut root = V(Some(L::new()));
    preinit_ops(&mut root);
    let mut args = L::new();
    args.insert(str_to_value("program"), V::system_list(vec![statement(path(&["var", "x"]), 0, num(42), 0)]));
    write_path(&mut root, &comps(&["ops", "run", "args"]), V(Some(args)));
    let mut log: Vec<Diag> = Vec::new();
    assert!(matches!(fire_op(&mut root, &chars("run"), 5, &mut log), Ok(Ok(()))));
    assert!(equals(&at(&root, &["var", "x"]), &num(42)));
    assert!(equals(&at(&root, &["ops", "run", "return"]), &num(0)));
}

#[test]
fn operations_are_registered_by_name() {
    assert!(matches!(op_registry("add"), Some(Op::Add)));
    assert!(matches!(op_registry("run"), Some(Op::Run)));
    assert!(op_registry("mul").is_none());
    assert!(matches!(op_by_chars(&chars("run")), Some(Op::Run)));
    assert_eq!(registered_op_names(), vec!["add", "run"]);
}

fn add_args(l: i32, r: i32) -> V {
    let mut args = L::new();
    args.insert(str_to_value("left"), num(l));
    args.insert(str_to_value("right"), num(r));
    V(Some(args))
}

#[test]
fn add_returns_the_signed_sum() {
    let mut root = V(None);
    match op_add(&mut root, &add_args(2, 3)) {
        Ok(Ok(v)) => assert!(equals(&v, &num(5))),
        _ => panic!("add failed"),
    }
    match op_add(&mut root, &add_args(-7, 3)) {
        Ok(Ok(v)) => assert!(equals(&v, &num(-4))),
        _ => panic!("add failed"),
    }
    let mut log: Vec<Diag> = Vec::new();
    match call_op(Op::Add, &mut root, &add_args(i32::MIN, i32::MAX), 5, &mut log) {
        Ok(Ok(v)) => assert!(equals(&v, &num(-1))),
        _ => panic!("add failed"),
    }
}

#[test]
fn add_refuses_bad_arguments() {
    let mut root = V(None);
    let mut args = L::new();
    args.insert(str_to_value("left"), num(2));
    assert!(matches!(op_add(&mut root, &V(Some(args))), Err(Abort::AddRightNotNumber(_))));
    assert!(matches!(op_add(&mut root, &V(None)), Err(Abort::AddLeftNotNumber(_))));
    assert!(matches!(op_add(&mut root, &add_args(i32::MAX, 1)), Err(Abort::AddOverflow)));
    assert!(matches!(op_add(&mut root, &add_args(i32::MIN, -1)), Err(Abort::AddOverflow)));
}

#[test]
fn run_returns_zero() {
    let mut args = L::new();
    args.insert(str_to_value("program"), V::system_list(vec![statement(path(&["var", "x"]), 0, num(4), 0)]));
    let mut root = V(None);
    let mut log: Vec<Diag> = Vec::new();
    match op_run(&mut root, &V(Some(args)), 5, &mut log) {
        Ok(Ok(v)) => assert!(equals(&v, &num(0))),
        _ => panic!("run failed"),
    }
    assert!(equals(&at(&root, &["var", "x"]), &num(4)));
    assert!(matches!(op_run(&mut root, &empty_map(), 5, &mut log), Err(Abort::MalformedProgram)));
}

#[test]
fn firing_needs_arguments_and_depth() {
    let mut root = V(None);
    preinit_ops(&mut root);
    let mut log: Vec<Diag> = Vec::new();
    assert!(matches!(fire_op(&mut root, &chars("add"), 5, &mut log), Err(Abort::AddLeftNotNumber(_))));
    assert!(matches!(fire_op(&mut root, &chars("add"), 0, &mut log), Err(Abort::DepthExceeded)));
    assert!(matches!(fire_op(&mut root, &chars("mul"), 5, &mut log), Err(Abort::UnknownOp(_))));
}

#[test]
fn only_trigger_writes_fire() {
    let mut root = V(None);
    let mut log: Vec<Diag> = Vec::new();
    assert!(matches!(maybe_fire(&mut root, &comps(&["var", "trigger"]), &empty_map(), 5, &mut log), Ok(Ok(()))));
    assert!(matches!(maybe_fire(&mut root, &comps(&["ops", "add", "args"]), &empty_map(), 5, &mut log), Ok(Ok(()))));
    assert!(matches!(
        maybe_fire(&mut root, &comps(&["ops", "add", "trigger", "x"]), &empty_map(), 5, &mut log),
        Ok(Ok(()))
    ));
    assert!(matches!(
        maybe_fire(&mut root, &comps(&["ops", "add", "trigger"]), &empty_map(), 5, &mut log),
        Err(Abort::AddLeftNotNumber(_))
    ));
    let mut record = L::new();
    record.insert(str_to_value("trigger"), empty_map());
    assert!(matches!(
        maybe_fire(&mut root, &comps(&["ops", "add"]), &V(Some(record)), 5, &mut log),
        Err(Abort::AddLeftNotNumber(_))
    ));
}

#[test]
fn string_paths_are_built_from_names() {
    let names = vec![chars("ops"), chars("add")];
    let p = build_path(&names);
    assert!(equals(&p, &V::index_list(vec![str_to_value("ops"), str_to_value("add")])));
    let mut root = V(None);
    ensure_path(&mut root, &names, num(1));
    assert!(equals(&at(&root, &["ops", "add"]), &num(1)));
}

#[test]
fn preinit_gives_each_op_an_empty_trigger() {
    let mut root = V(None);
    preinit_ops(&mut root);
    for name in ["add", "run"] {
        assert!(equals(&at(&root, &["ops", name, "trigger"]), &empty_map()));
    }
}
