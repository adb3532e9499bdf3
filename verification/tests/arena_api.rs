//! Tests of the range-checked arena wrappers and node snapshots.

use disjoint_set::arena::DSetPtr;
use disjoint_set::arena::DisjoinedSet;
use disjoint_set::arena::Node;

const INPUT: &str = "10 16\n1 0 1\n1 1 2\n0 0 2\n0 0 3\n1 3 4\n0 3 4\n0 2 4\n1 0 4\n0 2 3\n0 5 6\n1 5 6\n1 6 7\n0 5 7\n0 0 9\n1 8 9\n0 8 9\n";
const OUTPUT: &str = "1\n0\n1\n0\n1\n0\n1\n0\n1";

#[test]
fn disjoint_set_ptr_test_union_find() {
    let mut lines = INPUT.lines();

    let first_line = lines.next().unwrap().split(' ').collect::<Vec<&str>>();
    let n: usize = first_line[0].parse().unwrap();
    let _m: usize = first_line[1].parse().unwrap();

    let mut d_set = DisjoinedSet::new(n);

    let mut output = String::new();
    for line_raw in lines {
        let line = line_raw.split(' ').collect::<Vec<&str>>();
        let operation = line[0];
        let s: usize = line[1].parse().unwrap();
        let t: usize = line[2].parse().unwrap();
        match operation {
            "0" => {
                if d_set.connected(s, t).unwrap() {
                    output.push_str("1\n");
                } else {
                    output.push_str("0\n");
                }
            }
            "1" => {
                d_set.union(s, t);
            }
            _ => unreachable!(),
        }
    }

    assert_eq!(output.trim_end(), OUTPUT)
}

#[test]
fn wqu_ptr_test_union_find() {
    let mut lines = INPUT.lines();

    let first_line = lines.next().unwrap().split(' ').collect::<Vec<&str>>();
    let n: usize = first_line[0].parse().unwrap();
    let _m: usize = first_line[1].parse().unwrap();

    let mut d_set = DSetPtr::new(n);

    let mut output = String::new();
    for line_raw in lines {
        let line = line_raw.split(' ').collect::<Vec<&str>>();
        let operation = line[0];
        let s: usize = line[1].parse().unwrap();
        let t: usize = line[2].parse().unwrap();
        match operation {
            "0" => {
                if d_set.connected(s, t).unwrap() {
                    output.push_str("1\n");
                } else {
                    output.push_str("0\n");
                }
            }
            "1" => {
                d_set.union(s, t);
            }
            _ => unreachable!(),
        }
    }

    assert_eq!(output.trim_end(), OUTPUT)
}

#[test]
fn node_holds_its_element() {
    let node = Node::new(7);
    assert_eq!(node.into_element(), 7);
    assert_eq!(node.parent, None);
    assert_eq!(node.rank, 0);
    let other = Node::new(7);
    assert!(node == other);
    let third = Node::new(8);
    assert!(node != third);
}

#[test]
fn out_of_range_indices_answer_none() {
    let mut d_set = DisjoinedSet::new(3);
    assert_eq!(d_set.connected(0, 3), None);
    assert_eq!(d_set.connected(3, 0), None);
    assert_eq!(d_set.union(0, 3), None);
    assert_eq!(d_set.union(5, 1), None);
    assert!(d_set.get_root(3).is_none());
    assert_eq!(d_set.count(), 3);
    assert_eq!(d_set.connected(0, 2), Some(false));
}

#[test]
fn union_reports_whether_it_merged() {
    let mut d_set = DisjoinedSet::new(4);
    assert_eq!(d_set.union(0, 1), Some(true));
    assert_eq!(d_set.union(0, 1), Some(false));
    assert_eq!(d_set.union(1, 0), Some(false));
    assert_eq!(d_set.connected(0, 1), Some(true));
}

#[test]
fn get_root_returns_the_set_leader() {
    let mut d_set = DisjoinedSet::new(5);
    d_set.union(0, 1);
    d_set.union(1, 2);
    let a = d_set.get_root(0).unwrap();
    let b = d_set.get_root(2).unwrap();
    assert!(a == b);
    assert!(a.parent.is_none());
    assert!(a.into_element() < 3);
    let c = d_set.get_root(4).unwrap();
    assert_eq!(c.into_element(), 4);
}

#[test]
fn dset_ptr_get_leader_and_extend() {
    let mut d_set = DSetPtr::new(2);
    d_set.extend(2);
    assert_eq!(d_set.count(), 4);
    d_set.union(2, 3);
    let led = d_set.get_leader(2).unwrap();
    assert_eq!(led, d_set.get_leader(3).unwrap());
    assert!(d_set.connected(0, 2).unwrap() == false);
    assert!(d_set.get_leader(9).is_none());
}
