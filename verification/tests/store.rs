use price_store::store::PriceStore;

#[test]
fn empty_store_has_nothing() {
    let s = PriceStore::new();
    assert_eq!(s.list_all(), Vec::<u64>::new());
    assert_eq!(s.get_by_id(0), None);
    assert_eq!(s.get_by_id(u128::MAX), None);
}

#[test]
fn list_all_one_entry() {
    let mut s = PriceStore::new();
    s.create(14);
    assert_eq!(s.list_all(), vec![14]);
}

#[test]
fn get_by_unknown_id_not_found() {
    let mut s = PriceStore::new();
    let id = s.create(14);
    let other = id.wrapping_add(1);
    assert_eq!(s.get_by_id(other), None);
}

#[test]
fn get_by_id_returns_created_value() {
    let mut s = PriceStore::new();
    let id = s.create(14);
    assert_eq!(s.get_by_id(id), Some(14));
}

#[test]
fn update_then_get_sees_new_value() {
    let mut s = PriceStore::new();
    let id = s.create(10);
    assert!(s.update_by_id(id, 66));
    assert_eq!(s.get_by_id(id), Some(66));
}

#[test]
fn delete_succeeds_on_live_entry() {
    let mut s = PriceStore::new();
    let id = s.create(10);
    assert!(s.delete_by_id(id));
}

#[test]
fn delete_is_final() {
    let mut s = PriceStore::new();
    let id = s.create(7);
    assert!(s.delete_by_id(id));
    assert_eq!(s.get_by_id(id), None);
    assert!(!s.update_by_id(id, 9));
    assert!(!s.delete_by_id(id));
    assert_eq!(s.list_all(), Vec::<u64>::new());
}

#[test]
fn update_on_unknown_id_changes_nothing() {
    let mut s = PriceStore::new();
    let id = s.create(5);
    let other = id.wrapping_add(1);
    assert!(!s.update_by_id(other, 9));
    assert_eq!(s.get_by_id(id), Some(5));
    assert_eq!(s.list_all(), vec![5]);
}

#[test]
fn created_ids_are_pairwise_distinct() {
    let mut s = PriceStore::new();
    let mut ids = Vec::new();
    for v in 0..100u64 {
        ids.push(s.create(v));
    }
    for i in 0..ids.len() {
        for j in 0..i {
            assert_ne!(ids[i], ids[j]);
        }
    }
}

#[test]
fn list_all_is_the_multiset_of_live_values() {
    let mut s = PriceStore::new();
    let a = s.create(5);
    s.create(5);
    let c = s.create(7);
    let mut l = s.list_all();
    l.sort();
    assert_eq!(l, vec![5, 5, 7]);

    assert!(s.update_by_id(c, 5));
    let mut l = s.list_all();
    l.sort();
    assert_eq!(l, vec![5, 5, 5]);

    assert!(s.delete_by_id(a));
    let mut l = s.list_all();
    l.sort();
    assert_eq!(l, vec![5, 5]);
}

#[test]
fn deleting_one_duplicate_keeps_the_other() {
    let mut s = PriceStore::new();
    let a = s.create(5);
    let b = s.create(5);
    assert_ne!(a, b);
    assert!(s.delete_by_id(a));
    assert_eq!(s.list_all(), vec![5]);
    assert_eq!(s.get_by_id(b), Some(5));
}

#[test]
fn stores_are_independent() {
    let mut s1 = PriceStore::new();
    let mut s2 = PriceStore::new();
    let id = s1.create(3);
    assert_eq!(s2.get_by_id(id), None);
    s2.create(4);
    assert_eq!(s1.list_all(), vec![3]);
    assert_eq!(s2.list_all(), vec![4]);
}

#[test]
fn updates_on_distinct_ids_are_both_kept() {
    let mut s = PriceStore::new();
    let a = s.create(1);
    let b = s.create(2);
    assert!(s.update_by_id(a, 10));
    assert!(s.update_by_id(b, 20));
    assert_eq!(s.get_by_id(a), Some(10));
    assert_eq!(s.get_by_id(b), Some(20));
}

#[test]
fn largest_and_smallest_values_round_trip() {
    let mut s = PriceStore::new();
    let a = s.create(0);
    let b = s.create(u64::MAX);
    assert_eq!(s.get_by_id(a), Some(0));
    assert_eq!(s.get_by_id(b), Some(u64::MAX));
}
