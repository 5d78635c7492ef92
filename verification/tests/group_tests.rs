use std::collections::HashSet;

use round_eliminator::group::{Group, GroupType};

#[test]
fn valid_values() {
    assert_eq!(GroupType::one().value(), 1);
    assert_eq!(GroupType::Many(100).value(), 100);
}

#[test]
fn group_set_operations() {
    let a = Group::from(vec![1, 3, 5, 7]);
    let b = Group::from(vec![3, 4, 5]);
    assert_eq!(a.intersection(&b), Group(vec![3, 5]));
    assert_eq!(a.difference(&b), Group(vec![1, 7]));
    assert_eq!(b.difference(&a), Group(vec![4]));
    assert_eq!(a.union(&b), Group(vec![1, 3, 4, 5, 7]));
    assert!(a.is_superset(&Group(vec![1, 7])));
    assert!(!a.is_superset(&b));
    assert!(a.is_superset(&Group(vec![])));
}

#[test]
fn group_sets_round_trip() {
    let a = Group::from(vec![2, 9, 11]);
    let h = a.as_set();
    assert_eq!(h, HashSet::from([2, 9, 11]));
    assert_eq!(Group::from_set(&h), a);
    assert_eq!(Group::from_set(&HashSet::from([5, 1, 3])), Group(vec![1, 3, 5]));
}
