//! Tests of the naive rational backend.

use std::cmp::Ordering;

use order_maintenance::naive::UniquePriority;

#[test]
fn naive_singleton() {
    let p = UniquePriority::new();
    assert!(p == p);
}

#[test]
fn naive_adjacency() {
    let mut p = UniquePriority::new();
    let q = p.insert();
    assert!(p < q);
}

#[test]
fn naive_out_of_order() {
    let mut p = UniquePriority::new();
    let r = p.insert();
    let q = p.insert();
    assert!(p < q);
    assert!(q < r);
}

#[test]
fn naive_transitive() {
    let mut p = UniquePriority::new();
    let mut q = p.insert();
    let r = q.insert();
    assert!(p < q);
    assert!(q < r);
    assert!(p < r);
}

#[test]
fn naive_s1() {
    let mut p0 = UniquePriority::new();
    let mut p2 = p0.insert();
    let p1 = p0.insert();
    let p3 = p2.insert();
    assert!(p0 < p1);
    assert!(p1 < p2);
    assert!(p2 < p3);
    assert!(p0 < p2);
    assert!(p0 < p3);
    assert!(p1 < p3);
}

#[test]
fn naive_equal_values() {
    // 1/2 and 2/4 denote the same rational
    let a = UniquePriority { label: 1, depth: 1 };
    let b = UniquePriority { label: 2, depth: 2 };
    assert_eq!(a.partial_cmp(&b), Some(Ordering::Equal));
    // but they are distinct representations
    assert!(a != b);
}

#[test]
fn naive_exact_comparison() {
    // 3/4 against 1/1
    let a = UniquePriority { label: 3, depth: 2 };
    let b = UniquePriority { label: 1, depth: 0 };
    assert_eq!(a.partial_cmp(&b), Some(Ordering::Less));
    assert_eq!(b.partial_cmp(&a), Some(Ordering::Greater));
}

#[test]
fn naive_deep_comparison() {
    // the depth difference exceeds the machine word
    let a = UniquePriority { label: 1, depth: 70 };
    let b = UniquePriority { label: 1, depth: 2 };
    assert_eq!(a.partial_cmp(&b), Some(Ordering::Less));
    assert_eq!(b.partial_cmp(&a), Some(Ordering::Greater));
    let z = UniquePriority { label: 0, depth: 80 };
    let zero = UniquePriority { label: 0, depth: 0 };
    assert_eq!(z.partial_cmp(&zero), Some(Ordering::Equal));
}
