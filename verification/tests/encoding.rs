use larksson::value::{V, L, equals};
use larksson::encode::increment;

#[test]
fn unary_numbers_read_back() {
    for n in [0u32, 1, 2, 3, 10, 40] {
        assert_eq!(V::atomic(n).try_atomic_to_u32(), Some(n));
    }
}

#[test]
fn unary_number_shapes() {
    assert!(V::atomic(0).0.is_none());
    let one = V::atomic(1);
    assert_eq!(one.0.as_ref().unwrap().len(), 0);
    let two = V::atomic(2);
    let inner = two.0.as_ref().unwrap().get(&V(None)).unwrap();
    assert!(equals(inner, &V::atomic(1)));
}

#[test]
fn a_map_with_two_entries_is_no_unary_number() {
    let mut m = L::new();
    m.insert(V(None), V::atomic(1));
    m.insert(V::atomic(1), V::atomic(1));
    assert_eq!(V(Some(m)).try_atomic_to_u32(), None);
}

#[test]
fn numbers_of_thirty_two_bits_read_back() {
    for x in [0u32, 1, 5, 97, 65535, u32::MAX] {
        assert_eq!(V::from_prim(x).try_to_prim::<u32>(), Some(x));
    }
    for x in [0i32, -1, 42, i32::MIN, i32::MAX] {
        assert_eq!(V::from_prim(x).try_to_prim::<i32>(), Some(x));
    }
}

#[test]
fn a_number_reads_back_under_either_thirty_two_bit_type() {
    assert_eq!(V::from_prim(-1i32).try_to_prim::<u32>(), Some(u32::MAX));
    assert_eq!(V::from_prim(7u32).try_to_prim::<i32>(), Some(7));
}

#[test]
fn numbers_of_other_widths_do_not_read_back() {
    assert_eq!(V::from_prim(5u8).try_to_prim::<u8>(), None);
    assert_eq!(V::from_prim(5u64).try_to_prim::<u64>(), None);
    assert_eq!(V::from_prim(5usize).try_to_prim::<usize>(), None);
}

#[test]
fn number_shape_has_width_marker_and_set_bits() {
    let v = V::from_prim(5u32);
    let m = v.0.as_ref().unwrap();
    assert_eq!(m.len(), 3);
    assert_eq!(m.get_self().unwrap().try_atomic_to_u32(), Some(32));
    assert!(equals(m.get_atomic(1).unwrap(), &V::atomic(1)));
    assert!(m.get_atomic(2).is_none());
    assert!(equals(m.get_atomic(3).unwrap(), &V::atomic(1)));
}

#[test]
fn increment_counts_up() {
    let mut n = 4usize;
    assert_eq!(increment(&mut n), 4);
    assert_eq!(n, 5);
}

#[test]
fn system_list_numbers_items_from_zero() {
    let v = V::system_list(vec![V::atomic(7), V::atomic(8)]);
    let m = v.0.as_ref().unwrap();
    assert_eq!(m.len(), 2);
    assert_eq!(m.get_atomic(0).unwrap().try_atomic_to_u32(), Some(7));
    assert_eq!(m.get_atomic(1).unwrap().try_atomic_to_u32(), Some(8));
}

#[test]
fn marked_list_records_its_length() {
    let v = V::marked_list_counted(vec![V::atomic(3), V::atomic(4)]);
    let m = v.0.as_ref().unwrap();
    assert_eq!(m.len(), 3);
    assert!(equals(m.get(&V::from_prim(0usize)).unwrap(), &V::atomic(3)));
    assert!(equals(m.get(&V::from_prim(1usize)).unwrap(), &V::atomic(4)));
    assert!(equals(m.get_self().unwrap(), &V::from_prim(2usize)));
    let w = V::_marked_list(5, vec![V::atomic(3)]);
    assert!(equals(w.0.as_ref().unwrap().get_self().unwrap(), &V::from_prim(5usize)));
}

#[test]
fn marked_list_length_is_read_as_a_unary_number() {
    let mut m = L::new();
    m.insert(V(None), V::atomic(2));
    let v = V(Some(m));
    assert_eq!(v.get_marked_list_len(), Some(2));
    assert_eq!(v._marked_list_len(), 2);
    assert_eq!(V::marked_list_counted(vec![V::atomic(1)]).get_marked_list_len(), None);
    assert_eq!(V(None).get_marked_list_len(), None);
}

#[test]
fn linked_list_nests_items() {
    let v = V::linked_list(vec![V::atomic(1), V::atomic(2)]);
    let m = v.0.as_ref().unwrap();
    assert!(equals(m.get(&V(None)).unwrap(), &V::atomic(1)));
    let rest = m.get(&V::atomic(1)).unwrap();
    let r = rest.0.as_ref().unwrap();
    assert!(equals(r.get(&V(None)).unwrap(), &V::atomic(2)));
    assert!(r.get(&V::atomic(1)).is_none());
    assert!(V::linked_list(vec![]).0.is_none());
}
