use larksson::value::{V, L, equals};
use larksson::parse::{parse_source, SourceError, BuildErr, escaped};

fn parsed(src: &str) -> V {
    match parse_source(src) {
        Ok(v) => v,
        Err(_) => panic!("source did not parse: {}", src),
    }
}

#[test]
fn quoted_bare_and_bracketed_strings_are_one_value() {
    let quoted = parsed("\"hi\"");
    assert!(equals(&quoted, &parsed("hi")));
    assert!(equals(&quoted, &parsed("['h', 'i']")));
    assert!(equals(&quoted, &parsed("[104, 105]")));
    assert!(equals(&quoted, &parsed("  [104 , 105 ,]  ")));
    let m = quoted.0.as_ref().unwrap();
    assert!(equals(m.get(&V::from_prim(0i32)).unwrap(), &V::from_prim(104i32)));
    assert!(equals(m.get(&V::from_prim(1i32)).unwrap(), &V::from_prim(105i32)));
}

#[test]
fn numbers_are_thirty_two_bit_values() {
    assert!(equals(&parsed("42"), &V::from_prim(42i32)));
    assert!(equals(&parsed("-7"), &V::from_prim(-7i32)));
    assert!(equals(&parsed("'a'"), &V::from_prim(97u32)));
    assert!(equals(&parsed("'\\n'"), &V::from_prim(10u32)));
}

#[test]
fn unary_literals_and_self() {
    assert!(equals(&parsed("*3"), &V::atomic(3)));
    assert!(equals(&parsed("*0"), &V(None)));
    assert!(parsed("<>").0.is_none());
}

#[test]
fn map_literal_collects_entries() {
    let v = parsed("{1: 2, 3: 4, 1: 5,}");
    let m = v.0.as_ref().unwrap();
    assert_eq!(m.len(), 2);
    assert!(equals(m.get(&V::from_prim(1i32)).unwrap(), &V::from_prim(5i32)));
    assert!(equals(m.get(&V::from_prim(3i32)).unwrap(), &V::from_prim(4i32)));
    assert!(equals(&parsed("{}"), &V(Some(L::new()))));
    let with_self = parsed("{1: <>}");
    assert_eq!(with_self.0.as_ref().unwrap().len(), 1);
}

#[test]
fn dot_path_and_array_are_one_value() {
    let v = parsed(".a.b.");
    assert!(equals(&v, &parsed("[a, b]")));
    let expected = V::index_list(vec![parsed("a"), parsed("b")]);
    assert!(equals(&v, &expected));
    assert!(equals(&parsed("."), &V(Some(L::new()))));
    assert!(equals(&parsed(".1.2."), &parsed("[1, 2]")));
}

#[test]
fn a_side_in_parentheses_is_read_once_more() {
    let v = parsed("lines!\n.var.s. = (.var.x.)\n(.var.p.) <- .var.y.");
    let m = v.0.as_ref().unwrap();
    let stmt = |lhs: V, ld: u32, rhs: V, rd: u32| {
        V::system_list(vec![
            V::system_list(vec![lhs, V::atomic(ld)]),
            V::system_list(vec![rhs, V::atomic(rd)]),
        ])
    };
    assert!(equals(m.get_atomic(0).unwrap(), &stmt(parsed(".var.s."), 0, parsed(".var.x."), 1)));
    assert!(equals(m.get_atomic(1).unwrap(), &stmt(parsed(".var.p."), 1, parsed(".var.y."), 1)));
    assert!(matches!(parse_source("(.var.x.)"), Err(SourceError::Syntax)));
    assert!(matches!(parse_source("lines!\n.var.s. = (.var.x."), Err(SourceError::Syntax)));
}

#[test]
fn lines_build_statements() {
    let v = parsed("lines!\n.var.x. = 5\n.var.z. -> 1\n7\n.var.y. <- .var.x.");
    let m = v.0.as_ref().unwrap();
    assert_eq!(m.len(), 4);
    let stmt = |lhs: V, ld: u32, rhs: V, rd: u32| {
        V::system_list(vec![
            V::system_list(vec![lhs, V::atomic(ld)]),
            V::system_list(vec![rhs, V::atomic(rd)]),
        ])
    };
    let x = parsed(".var.x.");
    assert!(equals(m.get_atomic(0).unwrap(), &stmt(x.clone(), 0, V::from_prim(5i32), 0)));
    assert!(equals(m.get_atomic(1).unwrap(), &stmt(parsed(".var.z."), 1, V::from_prim(1i32), 0)));
    assert!(equals(m.get_atomic(2).unwrap(), &V::from_prim(7i32)));
    assert!(equals(m.get_atomic(3).unwrap(), &stmt(parsed(".var.y."), 0, x, 1)));
}

#[test]
fn a_dot_path_swallows_a_following_line_that_starts_with_a_value() {
    assert!(matches!(parse_source("lines!\n.var.y. <- .var.x.\n7"), Err(SourceError::Syntax)));
}

#[test]
fn empty_program_is_an_empty_system_list() {
    assert!(equals(&parsed("lines!"), &V(Some(L::new()))));
}

#[test]
fn syntax_errors_are_reported() {
    assert!(matches!(parse_source("{"), Err(SourceError::Syntax)));
    assert!(matches!(parse_source("1 2"), Err(SourceError::Syntax)));
    assert!(matches!(parse_source(""), Err(SourceError::Syntax)));
    assert!(matches!(parse_source("\"open"), Err(SourceError::Syntax)));
    assert!(matches!(parse_source("@"), Err(SourceError::Syntax)));
}

#[test]
fn bad_literals_are_build_errors() {
    assert!(matches!(parse_source("\"a\\qb\""), Err(SourceError::Build(BuildErr::UnknownEscape('q')))));
    assert!(matches!(parse_source("'\\x'"), Err(SourceError::Build(BuildErr::UnknownEscape('x')))));
    assert!(matches!(parse_source("2147483648"), Err(SourceError::Build(BuildErr::BadNumber))));
    assert!(matches!(parse_source("*4294967296"), Err(SourceError::Build(BuildErr::BadNumber))));
    assert!(equals(&parsed("-2147483648"), &V::from_prim(i32::MIN)));
}

#[test]
fn escapes_are_the_documented_ones() {
    assert_eq!(escaped('n'), Some('\n'));
    assert_eq!(escaped('t'), Some('\t'));
    assert_eq!(escaped('r'), Some('\r'));
    assert_eq!(escaped('0'), Some('\0'));
    assert_eq!(escaped('\\'), Some('\\'));
    assert_eq!(escaped('\''), Some('\''));
    assert_eq!(escaped('"'), Some('"'));
    assert_eq!(escaped('a'), None);
}
