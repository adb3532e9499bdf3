//! Operation-script tests for the three union-find variants.
//!
//! Each script starts with `<n> <m>` and continues with `<op> <p> <q>`
//! lines: `0` asks `connected` (answering `1`/`0`), `1` merges, `2`
//! moves a single element.

use disjoint_set::variants::QuickFind;
use disjoint_set::variants::QuickUnion;
use disjoint_set::variants::WeightedQuickUnion;

const IN_A: &str = "10 16\n1 0 1\n1 1 2\n0 0 2\n0 0 3\n1 3 4\n0 3 4\n0 2 4\n1 0 4\n0 2 3\n0 5 6\n1 5 6\n1 6 7\n0 5 7\n0 0 9\n1 8 9\n0 8 9\n";
const ANS_A: &str = "1\n0\n1\n0\n1\n0\n1\n0\n1";

const IN_B: &str = "5 9\n1 0 1\n1 1 2\n1 3 4\n0 0 2\n0 0 3\n2 2 3\n0 2 3\n0 0 1\n0 0 2\n";
const ANS_B: &str = "1\n0\n1\n1\n0";

trait Ops {
    fn extend(&mut self, n: usize);
    fn clear(&mut self);
    fn union(&mut self, p: usize, q: usize);
    fn connected(&mut self, p: usize, q: usize) -> bool;
    fn move_element(&mut self, p: usize, q: usize);
}

impl Ops for QuickFind {
    fn extend(&mut self, n: usize) {
        QuickFind::extend(self, n)
    }
    fn clear(&mut self) {
        QuickFind::clear(self)
    }
    fn union(&mut self, p: usize, q: usize) {
        QuickFind::union(self, p, q)
    }
    fn connected(&mut self, p: usize, q: usize) -> bool {
        QuickFind::connected(self, p, q)
    }
    fn move_element(&mut self, p: usize, q: usize) {
        QuickFind::move_element(self, p, q)
    }
}

impl Ops for QuickUnion {
    fn extend(&mut self, n: usize) {
        QuickUnion::extend(self, n)
    }
    fn clear(&mut self) {
        QuickUnion::clear(self)
    }
    fn union(&mut self, p: usize, q: usize) {
        QuickUnion::union(self, p, q)
    }
    fn connected(&mut self, p: usize, q: usize) -> bool {
        QuickUnion::connected(self, p, q)
    }
    fn move_element(&mut self, p: usize, q: usize) {
        QuickUnion::move_element(self, p, q)
    }
}

impl Ops for WeightedQuickUnion {
    fn extend(&mut self, n: usize) {
        WeightedQuickUnion::extend(self, n)
    }
    fn clear(&mut self) {
        WeightedQuickUnion::clear(self)
    }
    fn union(&mut self, p: usize, q: usize) {
        WeightedQuickUnion::union(self, p, q)
    }
    fn connected(&mut self, p: usize, q: usize) -> bool {
        WeightedQuickUnion::connected(self, p, q)
    }
    fn move_element(&mut self, p: usize, q: usize) {
        WeightedQuickUnion::move_element(self, p, q)
    }
}

fn run_script(uf: &mut impl Ops, input: &str) -> String {
    let mut lines = input.lines();
    let first_line = lines.next().unwrap().split(' ').collect::<Vec<&str>>();
    let n: usize = first_line[0].parse().unwrap();
    let _m: usize = first_line[1].parse().unwrap();

    uf.extend(n);

    let mut output = String::new();
    for line_raw in lines {
        let line = line_raw.split(' ').collect::<Vec<&str>>();
        let operation = line[0];
        let s: usize = line[1].parse().unwrap();
        let t: usize = line[2].parse().unwrap();
        match operation {
            "0" => {
                if uf.connected(s, t) {
                    output.push_str("1\n");
                } else {
                    output.push_str("0\n");
                }
            }
            "1" => uf.union(s, t),
            "2" => uf.move_element(s, t),
            _ => unreachable!(),
        }
    }
    output
}

fn run_all(uf: &mut impl Ops) {
    for (input, answer) in [(IN_A, ANS_A), (IN_B, ANS_B)] {
        let output = run_script(uf, input);
        assert_eq!(output.trim_end(), answer.trim_end());
        uf.clear();
    }
}

#[test]
fn test_qf() {
    let mut qf = QuickFind::new(0);
    run_all(&mut qf);
}

#[test]
fn test_qu() {
    let mut qu = QuickUnion::new(0);
    run_all(&mut qu);
}

#[test]
fn test_wqu() {
    let mut wqu = WeightedQuickUnion::new(0);
    run_all(&mut wqu);
}

#[test]
fn test_quick_find() {
    let mut qf = QuickFind::new(0);
    let output = run_script(&mut qf, IN_A);
    assert_eq!(output.trim_end(), ANS_A);
}

#[test]
fn test_quick_union() {
    let mut qu = QuickUnion::new(0);
    let output = run_script(&mut qu, IN_A);
    assert_eq!(output.trim_end(), ANS_A);
}

#[test]
fn test_weighted_quick_union() {
    let mut wqu = WeightedQuickUnion::new(0);
    let output = run_script(&mut wqu, IN_A);
    assert_eq!(output.trim_end(), ANS_A);
}

#[test]
fn disjoint_set_test_quick_find() {
    let mut qf = QuickFind::new(0);
    let output = run_script(&mut qf, IN_B);
    assert_eq!(output.trim_end(), ANS_B);
}

#[test]
fn disjoint_set_test_quick_union() {
    let mut qu = QuickUnion::new(0);
    let output = run_script(&mut qu, IN_B);
    assert_eq!(output.trim_end(), ANS_B);
}

#[test]
fn disjoint_set_test_weighted_quick_union() {
    let mut wqu = WeightedQuickUnion::new(0);
    let output = run_script(&mut wqu, IN_B);
    assert_eq!(output.trim_end(), ANS_B);
}

#[test]
fn find_leaders_of_separate_and_joined_sets() {
    let mut wqu = WeightedQuickUnion::new(4);
    let pair = wqu.find_leaders(0, 1);
    assert_eq!(pair, Some((0, 1)));
    wqu.union(0, 1);
    assert_eq!(wqu.find_leaders(0, 1), None);
    let led = wqu.find_leader(0);
    assert_eq!(wqu.find_leader(1), led);
    assert_eq!(wqu.count(), 4);
}
