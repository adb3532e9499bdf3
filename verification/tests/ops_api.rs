//! Tests of the free-function entry points and the `UnionFind` handle.

use disjoint_set::DisjointSet;
use disjoint_set::ops::UnionFind;
use disjoint_set::ops::connected;
use disjoint_set::ops::find_leader;
use disjoint_set::ops::union;

const INPUT: &str = "4 6\n? 0 1\n= 0 1\n? 0 1\n= 1 2\n? 0 2\n? 0 3\n";
const OUTPUT: &str = "no\nyes\nyes\nno\n";

fn run_script_free(input: &str) -> String {
    let mut lines = input.lines();
    let first_line = lines.next().unwrap();
    let args: Vec<&str> = first_line.split(' ').collect();
    let n: usize = args[0].parse().unwrap();

    let mut set = DisjointSet::new(n);

    let mut output = String::new();
    for line in lines {
        let args: Vec<&str> = line.split(' ').collect();
        let operation = args[0];
        let s: usize = args[1].parse().unwrap();
        let t: usize = args[2].parse().unwrap();
        match operation {
            "=" => union(&mut set, s, t),
            "?" => {
                if connected(&mut set, s, t) {
                    output.push_str("yes\n");
                } else {
                    output.push_str("no\n");
                }
            }
            _ => unreachable!(),
        }
    }
    output
}

#[test]
fn free_functions_run_a_script() {
    assert_eq!(run_script_free(INPUT), OUTPUT);
}

#[test]
fn free_find_leader_agrees_with_connected() {
    let mut set = DisjointSet::new(6);
    union(&mut set, 0, 1);
    union(&mut set, 2, 3);
    assert_eq!(find_leader(&mut set, 0), find_leader(&mut set, 1));
    assert_ne!(find_leader(&mut set, 1), find_leader(&mut set, 2));
    assert!(connected(&mut set, 0, 1));
    assert!(!connected(&mut set, 1, 2));
    union(&mut set, 1, 3);
    assert_eq!(find_leader(&mut set, 0), find_leader(&mut set, 3));
}

#[test]
fn union_find_handle_runs_a_script() {
    let mut lines = INPUT.lines();
    let first_line = lines.next().unwrap();
    let args: Vec<&str> = first_line.split(' ').collect();
    let n: usize = args[0].parse().unwrap();

    let mut set = UnionFind::new(n);

    let mut output = String::new();
    for line in lines {
        let args: Vec<&str> = line.split(' ').collect();
        let operation = args[0];
        let s: usize = args[1].parse().unwrap();
        let t: usize = args[2].parse().unwrap();
        match operation {
            "=" => set.union(s, t),
            "?" => {
                if set.connected(s, t) {
                    output.push_str("yes\n");
                } else {
                    output.push_str("no\n");
                }
            }
            _ => unreachable!(),
        }
    }
    assert_eq!(output, OUTPUT);
}

#[test]
fn union_find_handle_basics() {
    let mut set = UnionFind::new(3);
    assert!(!set.connected(0, 2));
    set.union(0, 2);
    assert!(set.connected(0, 2));
    assert_eq!(set.find_leader(0), set.find_leader(2));
    assert_ne!(set.find_leader(1), set.find_leader(0));
}
