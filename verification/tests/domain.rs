//! Tests of the bit-vector domain.

use taint_analysis::domain::TaintSet;

#[test]
fn bottom_is_empty() {
    let set = TaintSet::bottom(5);
    assert_eq!(set.len(), 5);
    for l in 0..5 {
        assert!(!set.contains(l));
    }
}

#[test]
fn set_and_clear_toggle_membership() {
    let mut set = TaintSet::bottom(4);
    set.set(2);
    assert!(set.contains(2));
    assert!(!set.contains(1));
    set.clear(2);
    assert!(!set.contains(2));
}

#[test]
fn join_is_union() {
    let mut a = TaintSet::bottom(4);
    a.set(0);
    a.set(2);
    let mut b = TaintSet::bottom(4);
    b.set(1);
    b.set(2);
    a.join(&b);
    assert!(a.contains(0));
    assert!(a.contains(1));
    assert!(a.contains(2));
    assert!(!a.contains(3));
    // The joined-in operand is untouched.
    assert!(!b.contains(0));
}

#[test]
fn equals_compares_contents() {
    let mut a = TaintSet::bottom(3);
    let mut b = TaintSet::bottom(3);
    assert!(a.equals(&b));
    a.set(1);
    assert!(!a.equals(&b));
    b.set(1);
    assert!(a.equals(&b));
    assert!(!a.equals(&TaintSet::bottom(2)));
}

#[test]
fn clone_copies_contents() {
    let mut a = TaintSet::bottom(3);
    a.set(0);
    let b = a.clone();
    assert!(b.contains(0));
    assert!(!b.contains(1));
    assert!(a.equals(&b));
}
