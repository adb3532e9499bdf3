//! Behavioural tests of the core `DisjointSet` engine.

use disjoint_set::DisjointSet;
use disjoint_set::MergePolicy;

#[test]
fn connected_is_reflexive_symmetric_transitive() {
    let mut s = DisjointSet::new(6);
    s.union(0, 1);
    s.union(1, 2);
    s.union(4, 5);
    for p in 0..6 {
        assert!(s.connected(p, p));
    }
    for p in 0..6 {
        for q in 0..6 {
            let pq = s.connected(p, q);
            let qp = s.connected(q, p);
            assert_eq!(pq, qp);
        }
    }
    for p in 0..6 {
        for q in 0..6 {
            for r in 0..6 {
                if s.connected(p, q) && s.connected(q, r) {
                    assert!(s.connected(p, r));
                }
            }
        }
    }
}

#[test]
fn union_twice_changes_nothing() {
    let mut s = DisjointSet::new(5);
    s.union(0, 1);
    s.union(3, 4);
    s.union(0, 3);
    let before: Vec<Vec<bool>> = snapshot(&mut s);
    s.union(0, 3);
    let after: Vec<Vec<bool>> = snapshot(&mut s);
    assert_eq!(before, after);
}

#[test]
fn union_order_of_arguments_is_invisible() {
    let mut a = DisjointSet::new(5);
    let mut b = DisjointSet::new(5);
    a.union(1, 2);
    b.union(1, 2);
    a.union(2, 4);
    b.union(4, 2);
    assert_eq!(snapshot(&mut a), snapshot(&mut b));
}

#[test]
fn extend_keeps_old_answers_and_adds_singletons() {
    let mut s = DisjointSet::new(4);
    s.union(0, 1);
    s.union(2, 3);
    let before = snapshot(&mut s);
    s.extend(3);
    assert_eq!(s.count(), 7);
    for p in 0..4 {
        for q in 0..4 {
            assert_eq!(s.connected(p, q), before[p][q]);
        }
    }
    for fresh in 4..7 {
        for q in 0..7 {
            assert_eq!(s.connected(fresh, q), fresh == q);
        }
    }
}

#[test]
fn move_element_connects_and_keeps_old_set_together() {
    let mut s = DisjointSet::new(7);
    s.union(0, 1);
    s.union(1, 2);
    s.union(2, 3);
    s.union(5, 6);
    s.move_element(2, 5);
    assert!(s.connected(2, 5));
    assert!(s.connected(2, 6));
    assert!(s.connected(0, 1));
    assert!(s.connected(0, 3));
    assert!(s.connected(1, 3));
    assert!(!s.connected(0, 2));
    assert!(!s.connected(3, 2));
}

#[test]
fn move_element_on_connected_pair_is_a_no_op() {
    let mut s = DisjointSet::new(4);
    s.union(0, 1);
    s.union(1, 2);
    let before = snapshot(&mut s);
    s.move_element(0, 2);
    assert_eq!(snapshot(&mut s), before);
}

#[test]
fn move_element_of_singleton_root() {
    let mut s = DisjointSet::new(4);
    s.union(0, 1);
    s.move_element(3, 0);
    assert!(s.connected(3, 0));
    assert!(s.connected(3, 1));
    assert!(!s.connected(3, 2));
}

#[test]
fn move_element_of_a_root_with_children() {
    let mut s = DisjointSet::new(6);
    s.union(0, 1);
    s.union(0, 2);
    s.union(0, 3);
    let root = s.find_leader(0);
    s.move_element(root, 4);
    assert!(s.connected(root, 4));
    for p in 0..4 {
        for q in 0..4 {
            if p != root && q != root {
                assert!(s.connected(p, q));
            }
        }
    }
}

#[test]
fn end_to_end_scenario() {
    let mut s = DisjointSet::new(5);
    s.union(0, 1);
    s.union(1, 2);
    s.union(3, 4);
    assert!(s.connected(0, 2));
    assert!(!s.connected(0, 3));
    s.move_element(2, 3);
    assert!(s.connected(2, 3));
    assert!(s.connected(0, 1));
}

#[test]
fn new_and_clear_and_empty_extend() {
    let mut s = DisjointSet::new(0);
    assert_eq!(s.count(), 0);
    s.extend(5);
    assert_eq!(s.count(), 5);
    s.extend(0);
    assert_eq!(s.count(), 5);
    s.union(0, 4);
    s.clear();
    assert_eq!(s.count(), 0);
    s.clear();
    assert_eq!(s.count(), 0);
}

#[test]
fn union_of_an_element_with_itself() {
    let mut s = DisjointSet::new(3);
    s.union(1, 1);
    assert!(!s.connected(0, 1));
    assert!(!s.connected(1, 2));
    assert!(s.connected(1, 1));
}

#[test]
fn find_leader_returns_a_common_root() {
    let mut s = DisjointSet::new(5);
    s.union(0, 1);
    s.union(1, 2);
    let a = s.find_leader(0);
    let b = s.find_leader(1);
    let c = s.find_leader(2);
    assert_eq!(a, b);
    assert_eq!(b, c);
    assert!(a < 3);
    let d = s.find_leader(3);
    assert_ne!(a, d);
    assert_eq!(d, 3);
}

#[test]
fn naive_policy_answers_like_by_rank() {
    let mut a = DisjointSet::with_policy(8, MergePolicy::NaiveAttach);
    let mut b = DisjointSet::with_policy(8, MergePolicy::ByRank);
    let pairs = [(0, 1), (2, 3), (1, 3), (4, 5), (6, 7), (5, 7), (3, 7)];
    for &(p, q) in pairs.iter() {
        a.union(p, q);
        b.union(p, q);
    }
    assert_eq!(snapshot(&mut a), snapshot(&mut b));
}

#[test]
fn depth_stays_logarithmic_under_random_unions() {
    let n: usize = 1024;
    let mut s = DisjointSet::new(n);
    let mut seed: u64 = 0x2545_f491_4f6c_dd1d;
    for _ in 0..8000 {
        seed = seed.wrapping_mul(6364136223846793005).wrapping_add(1442695040888963407);
        let p = (seed >> 33) as usize % n;
        seed = seed.wrapping_mul(6364136223846793005).wrapping_add(1442695040888963407);
        let q = (seed >> 33) as usize % n;
        s.union(p, q);
    }
    // union by rank alone bounds every path by log2(n) = 10; path
    // halving only shortens it.  Allow a small multiple as headroom.
    let mut max_path: usize = 0;
    for p in 0..n {
        let len = s.path_length(p);
        if len > max_path {
            max_path = len;
        }
    }
    assert!(max_path <= 20, "max find-path length {} exceeds bound", max_path);
}

#[test]
fn path_length_shrinks_after_compression() {
    let mut s = DisjointSet::with_policy(8, MergePolicy::NaiveAttach);
    // chain the roots so a deep path exists
    s.union(0, 1);
    s.union(1, 2);
    s.union(2, 3);
    let before = s.path_length(0);
    assert_eq!(before, 3);
    s.find_leader(0);
    let after = s.path_length(0);
    // halving re-linked 0 to its grandparent
    assert_eq!(after, 2);
}

fn snapshot(s: &mut DisjointSet) -> Vec<Vec<bool>> {
    let n = s.count();
    let mut rows: Vec<Vec<bool>> = Vec::new();
    for p in 0..n {
        let mut row: Vec<bool> = Vec::new();
        for q in 0..n {
            row.push(s.connected(p, q));
        }
        rows.push(row);
    }
    rows
}
