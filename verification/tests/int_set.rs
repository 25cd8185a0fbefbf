use fast_set::int_set::IntSet;

#[test]
fn set_operations() {
    let mut s = IntSet::new();
    assert!(s.is_empty());
    assert!(s.insert(3));
    assert!(!s.insert(3));
    assert!(s.insert(1));
    assert!(s.contains(1));
    assert!(!s.contains(2));
    assert_eq!(s.len(), 2);
    assert!(s.remove(3));
    assert!(!s.remove(3));
    assert_eq!(s.len(), 1);
    s.clear();
    assert!(s.is_empty());
    assert_eq!(s.len(), 0);
}

#[test]
fn members_come_out_in_ascending_order() {
    let s = IntSet::from_slice(&[70_000, 5, 3, 5, 1_000_000, 0]);
    assert_eq!(s.to_vec(), vec![0, 3, 5, 70_000, 1_000_000]);
    assert_eq!(s.iter(), vec![0, 3, 5, 70_000, 1_000_000]);
    assert_eq!(IntSet::new().to_vec(), Vec::<u32>::new());
}

#[test]
fn bulk_operations() {
    let mut a = IntSet::from_slice(&[1, 2, 3]);
    a.union_with(&IntSet::from_slice(&[3, 4]));
    assert_eq!(a.to_vec(), vec![1, 2, 3, 4]);
    a.difference_with(&IntSet::from_slice(&[2, 9]));
    assert_eq!(a.to_vec(), vec![1, 3, 4]);
    a.intersect_with(&IntSet::from_slice(&[3, 4, 5]));
    assert_eq!(a.to_vec(), vec![3, 4]);
    a.extend(&[8, 3]);
    assert_eq!(a.to_vec(), vec![3, 4, 8]);
    // the right-hand side is left alone
    let rhs = IntSet::from_slice(&[1]);
    let mut b = IntSet::from_slice(&[2]);
    b.union_with(&rhs);
    assert_eq!(rhs.to_vec(), vec![1]);
    assert_eq!(b.to_vec(), vec![1, 2]);
}

#[test]
fn equality_is_by_members() {
    let mut a = IntSet::from_slice(&[1, 2, 3]);
    let b = IntSet::from_slice(&[3, 2, 1]);
    assert!(a == b);
    a.optimize();
    assert!(a == b);
    assert!(a.clone() == a);
    a.insert(4);
    assert!(a != b);
    assert!(IntSet::new() == IntSet::default());
    assert!(IntSet::new() != b);
}

#[test]
fn equality_survives_a_change_of_layout() {
    let values: Vec<u32> = (0..10_000).collect();
    let mut a = IntSet::from_slice(&values);
    let b = IntSet::from_slice(&values);
    a.optimize();
    assert!(a == b);
    assert_eq!(a.len(), 10_000);
    assert_eq!(a.to_vec(), values);
}
