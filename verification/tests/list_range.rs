//! Tests of the list-range backend: insertion patterns keep every pair of
//! priorities ordered by position.

use std::cmp::Ordering;

use order_maintenance::internal::PriorityKey;
use order_maintenance::list_range::Universe;
use rand::rngs::StdRng;
use rand::{Rng, SeedableRng};

const SOME: usize = 500;
const MANY: usize = 2000;

fn do_insert(n: usize, mut next_index: impl FnMut(usize) -> usize) {
    let (mut u, p0) = Universe::new();
    let mut ps: Vec<PriorityKey> = vec![p0];

    for i in 0..n {
        let i = next_index(i);
        let q = u.insert(ps[i]).unwrap();
        ps.insert(i + 1, q);
    }

    // Compare all priorities to each other
    for i in 0..ps.len() {
        for j in i + 1..ps.len() {
            assert_eq!(u.compare(ps[i], ps[j]), Ordering::Less, "ps[{}] < ps[{}]", i, j);
        }
    }
}

fn do_insert_begin(n: usize) {
    let (mut u, p0) = Universe::new();
    let mut ps: Vec<PriorityKey> = vec![p0];
    for _ in 0..n {
        let p = u.insert(ps[0]).unwrap();
        ps.push(p);
    }

    for j in 1..ps.len() {
        assert_eq!(u.compare(ps[0], ps[j]), Ordering::Less, "ps[{}] < ps[{}]", 0, j);
    }

    // Compare all priorities to each other
    for i in 1..ps.len() {
        for j in i + 1..ps.len() {
            assert_eq!(u.compare(ps[i], ps[j]), Ordering::Greater, "ps[{}] > ps[{}]", i, j);
        }
    }
}

#[test]
fn list_range_drop_single() {
    let (mut u, p) = Universe::new();
    u.release(p);
    assert_eq!(u.total(), 0);
}

#[test]
fn list_range_compare_two() {
    let (mut u, p1) = Universe::new();
    let p2 = u.insert(p1).unwrap();
    assert_eq!(u.compare(p1, p2), Ordering::Less);
}

#[test]
fn list_range_insertion() {
    let (mut u, p1) = Universe::new();
    let p3 = u.insert(p1).unwrap();
    let p2 = u.insert(p1).unwrap();

    assert_eq!(u.compare(p1, p2), Ordering::Less);
    assert_eq!(u.compare(p2, p3), Ordering::Less);
    assert_eq!(u.compare(p1, p3), Ordering::Less);
}

#[test]
fn list_range_transitive() {
    let (mut u, p1) = Universe::new();
    let p2 = u.insert(p1).unwrap();
    let p3 = u.insert(p2).unwrap();

    assert_eq!(u.compare(p1, p2), Ordering::Less);
    assert_eq!(u.compare(p2, p3), Ordering::Less);
    assert_eq!(u.compare(p1, p3), Ordering::Less);
}

#[test]
fn list_range_insert_some_begin() {
    do_insert(SOME, |_| 0);
    do_insert_begin(SOME);
}

#[test]
fn list_range_insert_some_end() {
    do_insert(SOME, |n| n);
}

#[test]
fn list_range_insert_some_flipflop() {
    do_insert(SOME, |n| if n % 2 == 0 { 0 } else { n })
}

#[test]
fn list_range_insert_many_begin() {
    do_insert_begin(MANY);
}

#[test]
fn list_range_insert_many_end() {
    do_insert(MANY, |n| n);
}

#[test]
fn list_range_insert_some_begin_many_end() {
    do_insert(MANY, |n| if n < SOME { 0 } else { n })
}

#[test]
fn list_range_insert_many_random() {
    let mut rng = StdRng::seed_from_u64(42);
    do_insert(MANY, |n| rng.gen_range(0..n.max(1)));
}

#[test]
fn list_range_insert_drop_random() {
    // mixed inserts and drops at seeded-random positions; every surviving
    // pair must still order by position
    let mut rng = StdRng::seed_from_u64(42);
    let (mut u, p0) = Universe::new();
    let mut ps: Vec<PriorityKey> = vec![p0];
    for _ in 0..MANY {
        if ps.len() > 1 && rng.gen_range(0..4) == 0 {
            let at = rng.gen_range(0..ps.len());
            let victim = ps.remove(at);
            u.release(victim);
        } else {
            let at = rng.gen_range(0..ps.len());
            let q = u.insert(ps[at]).unwrap();
            ps.insert(at + 1, q);
        }
    }
    for i in 0..ps.len() {
        for j in i + 1..ps.len() {
            assert_eq!(u.compare(ps[i], ps[j]), Ordering::Less, "ps[{}] < ps[{}]", i, j);
        }
    }
}

#[test]
fn list_range_clone_compares_alike() {
    let (mut u, p1) = Universe::new();
    let p2 = u.insert(p1).unwrap();
    let p3 = u.insert(p2).unwrap();
    // a clone is the same key with one more handle; it compares like the
    // original against every peer
    u.clone_key(p2);
    assert_eq!(u.compare(p2, p1), Ordering::Greater);
    assert_eq!(u.compare(p2, p3), Ordering::Less);
    assert_eq!(u.compare(p2, p2), Ordering::Equal);
    u.release(p2);
    assert_eq!(u.compare(p2, p1), Ordering::Greater);
    assert_eq!(u.compare(p2, p3), Ordering::Less);
}

#[test]
fn list_range_release_all_empties() {
    let (mut u, p0) = Universe::new();
    let p1 = u.insert(p0).unwrap();
    let p2 = u.insert(p1).unwrap();
    assert_eq!(u.total(), 3);
    u.release(p1);
    u.release(p0);
    u.release(p2);
    assert_eq!(u.total(), 0);
}

#[test]
fn list_range_singleton() {
    let (u, p) = Universe::new();
    assert_eq!(u.compare(p, p), Ordering::Equal);
    assert_eq!(u.total(), 1);
}
