use cso::column_set::ColumnRefSet;

#[test]
fn insert_then_contains() {
    let mut s = ColumnRefSet::new();
    assert!(s.insert(3));
    assert!(!s.insert(3));
    assert!(s.contains(3));
    assert!(!s.contains(4));
    assert_eq!(s.len(), 1);
}

#[test]
fn new_set_is_empty() {
    let s = ColumnRefSet::new();
    assert_eq!(s.len(), 0);
    assert!(!s.contains(0));
}

#[test]
fn with_id_holds_that_id_only() {
    let s = ColumnRefSet::with_id(7);
    assert!(s.contains(7));
    assert!(!s.contains(6));
    assert_eq!(s.len(), 1);
}

#[test]
fn remove_takes_the_member_out() {
    let mut s = ColumnRefSet::with_id(5);
    s.insert(9);
    assert!(s.remove(5));
    assert!(!s.remove(5));
    assert!(!s.contains(5));
    assert!(s.contains(9));
    assert_eq!(s.len(), 1);
}

#[test]
fn disjoint_sets_share_no_member() {
    let mut a = ColumnRefSet::new();
    a.insert(1);
    a.insert(2);
    let mut b = ColumnRefSet::new();
    b.insert(3);
    assert!(a.is_disjoint(&b));
    b.insert(2);
    assert!(!a.is_disjoint(&b));
}

#[test]
fn superset_holds_every_member_of_the_other() {
    let mut a = ColumnRefSet::new();
    a.insert(0);
    a.insert(1);
    a.insert(2);
    let mut b = ColumnRefSet::new();
    b.insert(1);
    assert!(a.is_superset(&b));
    assert!(!b.is_superset(&a));
    b.insert(40);
    assert!(!a.is_superset(&b));
    assert!(a.is_superset(&ColumnRefSet::new()));
}

#[test]
fn union_adds_the_members_of_the_other() {
    let mut a = ColumnRefSet::with_id(1);
    let mut b = ColumnRefSet::with_id(2);
    b.insert(70);
    a.union_with(&b);
    assert!(a.contains(1));
    assert!(a.contains(2));
    assert!(a.contains(70));
    assert_eq!(a.len(), 3);
    assert_eq!(b.len(), 2);
}
