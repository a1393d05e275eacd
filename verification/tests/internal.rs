//! Tests of the arena: node counts and reference counts through inserts,
//! clones and drops.

use order_maintenance::internal::Arena;
use order_maintenance::label::Label;

fn assert_priority_count(a: &Arena, n: usize) {
    assert_eq!(a.total(), n);
}

fn release(a: &mut Arena, k: order_maintenance::internal::PriorityKey) {
    if a.ref_dec(k) {
        a.remove(k);
    }
}

#[test]
fn empty_arena() {
    let a = Arena::new();
    assert_priority_count(&a, 1);
}

#[test]
fn priority_from_base() {
    let a = Arena::new();
    let _base = a.base();
    assert_priority_count(&a, 1);
}

#[test]
fn priority_after_base() {
    let mut a = Arena::new();
    let base = a.base();
    let _k = a.insert_after(Label::new(u64::MAX / 2), base);
    assert_priority_count(&a, 2);
}

#[test]
fn drop_base() {
    let mut a = Arena::new();
    let p1 = a.base();
    let p2 = a.insert_after(Label::new(2), p1);
    assert_priority_count(&a, 2);
    release(&mut a, p2);
    assert_priority_count(&a, 1);
    release(&mut a, p1);
    assert_priority_count(&a, 0);
}

#[test]
fn drop_one() {
    let mut a = Arena::new();
    let base = a.base();
    let p1 = a.insert_after(Label::new(1), base);
    let p2 = a.insert_after(Label::new(2), p1);
    assert_priority_count(&a, 3);
    release(&mut a, p2);
    assert_priority_count(&a, 2);
}

#[test]
fn clone_priority_ref() {
    let mut a = Arena::new();
    let base = a.base();
    let p1 = a.insert_after(Label::new(1), base);
    // a second handle appears and disappears
    a.ref_inc(p1);
    assert_eq!(a.total(), 2);
    assert_eq!(a.get(p1).ref_count, 2);
    release(&mut a, p1);
    assert_eq!(a.total(), 2);
    assert_eq!(a.get(p1).ref_count, 1);
    // and once more
    a.ref_inc(p1);
    assert_eq!(a.total(), 2);
    assert_eq!(a.get(p1).ref_count, 2);
    release(&mut a, p1);
    assert_eq!(a.total(), 2);
    assert_eq!(a.get(p1).ref_count, 1);
}
