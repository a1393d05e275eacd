//! Tests of the unbounded backend.

use std::cmp::Ordering;

use order_maintenance::big::UniquePriority;

#[test]
fn big_singleton() {
    let p = UniquePriority::new();
    assert!(p == p);
}

#[test]
fn big_adjacency() {
    let mut p = UniquePriority::new();
    let q = p.insert();
    assert!(p < q);
}

#[test]
fn big_out_of_order() {
    let mut p = UniquePriority::new();
    let r = p.insert();
    let q = p.insert();
    assert!(p < q);
    assert!(q < r);
}

#[test]
fn big_transitive() {
    let mut p = UniquePriority::new();
    let mut q = p.insert();
    let r = q.insert();
    assert!(p < q);
    assert!(q < r);
    assert!(p < r);
}

#[test]
fn big_s1() {
    let mut p0 = UniquePriority::new();
    let mut p2 = p0.insert();
    let p1 = p0.insert();
    let p3 = p2.insert();
    assert!(p0 < p1);
    assert!(p1 < p2);
    assert!(p2 < p3);
    assert!(p0 < p2);
    assert!(p0 < p3);
    assert!(p1 < p3);
}

#[test]
fn big_equal_fraction() {
    // 0.01 and 0.010 denote the same fraction but differ as strings
    let a = UniquePriority { bits: vec![false, true] };
    let b = UniquePriority { bits: vec![false, true, false] };
    assert_eq!(a.partial_cmp(&b), Some(Ordering::Equal));
    assert!(a != b);
}

#[test]
fn big_never_exhausts() {
    // inserting at the front over and over never runs out of room
    let mut p0 = UniquePriority::new();
    let mut ps = Vec::new();
    for _ in 0..300 {
        ps.push(p0.insert());
    }
    for i in 0..ps.len() {
        assert!(p0 < ps[i]);
        for j in i + 1..ps.len() {
            assert!(ps[j] < ps[i], "ps[{}] > ps[{}]", i, j);
        }
    }
}
