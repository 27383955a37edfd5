use larksson::value::{V, L, compare, equals};
use larksson::order::Order;

fn num(n: i32) -> V {
    V::from_prim(n)
}

fn map_of(pairs: Vec<(V, V)>) -> V {
    V(Some(L::from_entries(pairs)))
}

#[test]
fn compare_orders_empty_before_maps() {
    assert!(matches!(compare(&V(None), &V(None)), Order::Equal));
    assert!(matches!(compare(&V(None), &V::atomic(1)), Order::Less));
    assert!(matches!(compare(&V::atomic(1), &V(None)), Order::Greater));
}

#[test]
fn compare_orders_unary_numbers_by_size() {
    assert!(matches!(compare(&V::atomic(2), &V::atomic(5)), Order::Less));
    assert!(matches!(compare(&V::atomic(7), &V::atomic(3)), Order::Greater));
    assert!(matches!(compare(&V::atomic(4), &V::atomic(4)), Order::Equal));
}

#[test]
fn equals_and_clone_agree() {
    let v = map_of(vec![(num(1), num(2)), (num(3), V::atomic(4))]);
    let w = v.clone();
    assert!(equals(&v, &w));
    assert!(!equals(&v, &num(1)));
    assert!(equals(&V(None), &V::atomic(0)));
}

#[test]
fn insert_then_get_reads_back() {
    let mut m = L::new();
    m.insert(num(1), num(10));
    m.insert(num(2), num(20));
    m.insert(num(1), num(11));
    assert_eq!(m.len(), 2);
    assert!(equals(m.get(&num(1)).unwrap(), &num(11)));
    assert!(equals(m.get(&num(2)).unwrap(), &num(20)));
    assert!(m.get(&num(3)).is_none());
}

#[test]
fn insert_of_empty_value_changes_nothing() {
    let mut m = L::new();
    m.insert(num(1), V(None));
    assert!(m.is_empty());
    assert!(!m.contains_key(&num(1)));
}

#[test]
fn remove_gives_back_the_value() {
    let mut m = L::new();
    m.insert(num(5), num(50));
    let got = m.remove(&num(5));
    assert!(equals(&got.unwrap(), &num(50)));
    assert!(m.remove(&num(5)).is_none());
    assert_eq!(m.len(), 0);
}

#[test]
fn keys_come_out_in_order() {
    let mut m = L::new();
    m.insert(V::atomic(3), num(3));
    m.insert(V::atomic(1), num(1));
    m.insert(V::atomic(2), num(2));
    let keys = m.keys();
    assert_eq!(keys.len(), 3);
    assert_eq!(keys[0].try_atomic_to_u32(), Some(1));
    assert_eq!(keys[1].try_atomic_to_u32(), Some(2));
    assert_eq!(keys[2].try_atomic_to_u32(), Some(3));
    let entries = m.iter();
    assert!(equals(entries[2].1, &num(3)));
}

#[test]
fn entry_inserts_default_once() {
    let mut m = L::new();
    {
        let slot = m.entry(num(1), num(100));
        *slot = num(101);
    }
    {
        let slot = m.entry(num(1), num(200));
        assert!(equals(slot, &num(101)));
    }
    assert_eq!(m.len(), 1);
}

#[test]
fn get_mut_and_values_mut_write_in_place() {
    let mut m = L::new();
    m.insert(num(1), num(1));
    *m.get_mut(&num(1)).unwrap() = num(9);
    assert!(equals(m.get(&num(1)).unwrap(), &num(9)));
    *m.values_mut(0) = num(8);
    assert!(equals(m.get(&num(1)).unwrap(), &num(8)));
    assert!(m.get_mut(&num(2)).is_none());
}

#[test]
fn unary_getters_read_unary_keys() {
    let mut m = L::new();
    m.insert(V::atomic(0), num(0));
    m.insert(V::atomic(1), num(1));
    m.insert(V::atomic(5), num(5));
    assert!(equals(m.get_self().unwrap(), &num(0)));
    assert!(equals(m.get_atomic_one().unwrap(), &num(1)));
    assert!(equals(m.get_atomic(5).unwrap(), &num(5)));
    assert!(m.get_atomic(4).is_none());
}

#[test]
fn retain_keeps_matching_entries() {
    let mut m = L::new();
    m.insert(V::atomic(1), num(1));
    m.insert(V::atomic(2), num(2));
    m.insert(V::atomic(3), num(3));
    m.retain(|k: &V, _v: &V| k.try_atomic_to_u32() != Some(2));
    assert_eq!(m.len(), 2);
    assert!(m.contains_key(&V::atomic(1)));
    assert!(!m.contains_key(&V::atomic(2)));
}

#[test]
fn from_pairs_drops_empty_values_and_from_entries_keeps_them() {
    let pairs = vec![(num(1), V(None)), (num(2), num(2))];
    assert_eq!(L::from_pairs(pairs).len(), 1);
    let pairs = vec![(num(1), V(None)), (num(2), num(2)), (num(2), num(3))];
    let l = L::from_entries(pairs);
    assert_eq!(l.len(), 2);
    assert!(equals(l.get(&num(2)).unwrap(), &num(3)));
}
