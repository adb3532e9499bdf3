//! The core disjoint-set engine.
//!
//! The universe is a dense range `{0 .. count-1}`.  Each element stores
//! the index of its leader (parent) in `leaders`; an element whose leader
//! is itself is the root of its set.  `ranks` holds per-root balance
//! hints used only to pick the merge direction.
//!
//! Two ghost components model the forest:
//! - `rep` maps every element to the root of its set.  All observable
//!   contracts are phrased over it, through [`DisjointSet::is_connected`].
//! - `level` assigns every element a measure that strictly decreases from
//!   a child to its parent, which both rules out cycles and serves as the
//!   termination measure of the leader walks.

use vstd::prelude::*;

verus! {

/// How `union` chooses the surviving root.
///
/// With `ByRank` the lower-rank root is attached under the higher-rank
/// one (ties attach the first under the second and bump the survivor),
/// keeping trees shallow.  With `NaiveAttach` the first root is always
/// attached under the second.  The choice is invisible to `connected`:
/// it only shapes the internal trees.
#[derive(Clone, Copy, PartialEq, Eq, Structural)]
pub enum MergePolicy {
    NaiveAttach,
    ByRank,
}

/// A union-find forest over the dense universe `{0 .. count-1}`.
pub struct DisjointSet {
    leaders: Vec<usize>,
    ranks: Vec<usize>,
    policy: MergePolicy,
    rep: Ghost<Seq<usize>>,
    level: Ghost<Seq<nat>>,
}

/// What `union(p, q)` does to the connectivity relation: it is the
/// smallest equivalence joining `p`'s and `q`'s sets and keeping every
/// other set as it was.
pub open spec fn union_post(pre: DisjointSet, post: DisjointSet, p: int, q: int) -> bool {
    &&& post.count_spec() == pre.count_spec()
    &&& forall|a: int, b: int|
        pre.valid(a) && pre.valid(b) ==> (#[trigger] post.is_connected(a, b) <==> (
        pre.is_connected(a, b) || (pre.is_connected(a, p) && pre.is_connected(b, q)) || (
        pre.is_connected(a, q) && pre.is_connected(b, p))))
    &&& forall|a: int|
        pre.valid(a) && !pre.is_connected(a, p) && !pre.is_connected(a, q)
            ==> #[trigger] post.rep_of(a) == pre.rep_of(a)
    &&& post.rep_of(p) == pre.rep_of(p) || post.rep_of(p) == pre.rep_of(q)
}

/// What `move_element(p, q)` does to the connectivity relation: `p`
/// alone leaves its set and joins `q`'s; every pair not involving `p`
/// is connected exactly as before.
pub open spec fn move_post(pre: DisjointSet, post: DisjointSet, p: int, q: int) -> bool {
    &&& post.count_spec() == pre.count_spec()
    &&& forall|a: int, b: int|
        pre.valid(a) && pre.valid(b) ==> (#[trigger] post.is_connected(a, b) <==> (if a == p && b
            == p {
            true
        } else if a == p {
            pre.is_connected(b, q)
        } else if b == p {
            pre.is_connected(a, q)
        } else {
            pre.is_connected(a, b)
        }))
    &&& post.rep_of(p) == pre.rep_of(q)
    &&& forall|a: int|
        pre.valid(a) && a != p && !pre.is_connected(a, p) ==> #[trigger] post.rep_of(a)
            == pre.rep_of(a)
}

/// What `extend(n)` does: `n` fresh singletons are appended and every
/// pre-existing pair is connected exactly as before.
pub open spec fn extend_post(pre: DisjointSet, post: DisjointSet, n: int) -> bool {
    &&& post.count_spec() == pre.count_spec() + n
    &&& forall|a: int, b: int|
        pre.valid(a) && pre.valid(b) ==> (#[trigger] post.is_connected(a, b)
            <==> pre.is_connected(a, b))
    &&& forall|a: int| pre.valid(a) ==> #[trigger] post.rep_of(a) == pre.rep_of(a)
    &&& forall|a: int, b: int|
        pre.count_spec() <= a < post.count_spec() && post.valid(b) ==> (
        #[trigger] post.is_connected(a, b) <==> a == b)
    &&& forall|a: int|
        pre.count_spec() <= a < post.count_spec() ==> #[trigger] post.rep_of(a) == a
            && post.rank_of(a) == 0
}

impl DisjointSet {
    /// Number of elements in the universe.
    pub closed spec fn count_spec(&self) -> nat {
        self.leaders@.len()
    }

    /// The root that element `i` resolves to.
    pub closed spec fn rep_of(&self, i: int) -> usize {
        self.rep@[i]
    }

    /// `i` is an element of the universe.
    pub open spec fn valid(&self, i: int) -> bool {
        0 <= i < self.count_spec()
    }

    /// Two elements are connected when they resolve to the same root.
    pub open spec fn is_connected(&self, p: int, q: int) -> bool {
        self.rep_of(p) == self.rep_of(q)
    }

    /// Well-formedness: the arrays agree in length, links and
    /// representatives stay in range, the representative is constant
    /// along leader links and is a root, only representatives are
    /// self-linked, and `level` strictly decreases towards the root.
    pub closed spec fn wf(&self) -> bool {
        let n = self.leaders@.len() as int;
        &&& self.ranks@.len() == n
        &&& self.rep@.len() == n
        &&& self.level@.len() == n
        &&& forall|i: int| 0 <= i < n ==> (#[trigger] self.leaders@[i]) < n
        &&& forall|i: int| 0 <= i < n ==> (#[trigger] self.rep@[i]) < n
        &&& forall|i: int|
            0 <= i < n ==> self.rep@[#[trigger] self.leaders@[i] as int] == self.rep@[i]
        &&& forall|i: int|
            0 <= i < n ==> self.leaders@[#[trigger] self.rep@[i] as int] == self.rep@[i]
        &&& forall|i: int| 0 <= i < n && (#[trigger] self.leaders@[i]) == i ==> self.rep@[i] == i
        &&& forall|i: int|
            0 <= i < n && (#[trigger] self.leaders@[i]) != i ==> self.level@[self.leaders@[i] as int]
                < self.level@[i]
    }

    /// The representative of any element is itself a fixed point of `rep`
    /// and a root of the forest.
    proof fn lemma_rep_is_root(&self, i: int)
        requires
            self.wf(),
            self.valid(i),
        ensures
            self.valid(self.rep_of(i) as int),
            self.rep_of(self.rep_of(i) as int) == self.rep_of(i),
            self.leaders@[self.rep_of(i) as int] == self.rep_of(i),
    {
        assert(self.leaders@[self.rep@[i] as int] == self.rep@[i]);
    }

    /// Universe of `n` singleton sets, merging under the given policy.
    pub fn with_policy(n: usize, policy: MergePolicy) -> (s: DisjointSet)
        ensures
            s.wf(),
            s.count_spec() == n,
            forall|p: int, q: int|
                s.valid(p) && s.valid(q) ==> (#[trigger] s.is_connected(p, q) <==> p == q),
            forall|i: int| s.valid(i) ==> #[trigger] s.rep_of(i) == i && s.rank_of(i) == 0,
    {
        let mut leaders: Vec<usize> = Vec::new();
        let mut ranks: Vec<usize> = Vec::new();
        let mut i: usize = 0;
        while i < n
            invariant
                i <= n,
                leaders@.len() == i,
                ranks@.len() == i,
                forall|j: int| 0 <= j < i ==> leaders@[j] == j,
                forall|j: int| 0 <= j < i ==> ranks@[j] == 0,
            decreases n - i,
        {
            leaders.push(i);
            ranks.push(0);
            i = i + 1;
        }
        let s = DisjointSet {
            leaders,
            ranks,
            policy,
            rep: Ghost(Seq::new(n as nat, |j: int| j as usize)),
            level: Ghost(Seq::new(n as nat, |j: int| 0nat)),
        };
        s
    }

    /// Universe of `n` singleton sets, merging by rank.
    pub fn new(n: usize) -> (s: DisjointSet)
        ensures
            s.wf(),
            s.count_spec() == n,
            forall|p: int, q: int|
                s.valid(p) && s.valid(q) ==> (#[trigger] s.is_connected(p, q) <==> p == q),
            forall|i: int| s.valid(i) ==> #[trigger] s.rep_of(i) == i && s.rank_of(i) == 0,
    {
        DisjointSet::with_policy(n, MergePolicy::ByRank)
    }

    /// Current universe size.
    pub fn count(&self) -> (r: usize)
        ensures
            r == self.count_spec(),
    {
        self.leaders.len()
    }

    /// Root of `p`'s set, halving the walked path on the way up.
    ///
    /// Every visited element is re-linked to its grandparent, so repeated
    /// queries flatten the tree.  The compression changes only the shape
    /// of the forest: the representative of every element is untouched.
    pub fn find_leader(&mut self, p: usize) -> (r: usize)
        requires
            old(self).wf(),
            old(self).valid(p as int),
        ensures
            final(self).wf(),
            final(self).count_spec() == old(self).count_spec(),
            forall|i: int| old(self).valid(i) ==> final(self).rep_of(i) == old(self).rep_of(i),
            r == old(self).rep_of(p as int),
            final(self).valid(r as int),
    {
        let mut cur = p;
        while self.leaders[cur] != cur
            invariant
                self.wf(),
                self.count_spec() == old(self).count_spec(),
                self.rep@ == old(self).rep@,
                self.level@ == old(self).level@,
                self.ranks@ == old(self).ranks@,
                self.policy == old(self).policy,
                self.valid(cur as int),
                self.rep_of(cur as int) == old(self).rep_of(p as int),
            decreases self.level@[cur as int],
        {
            let parent = self.leaders[cur];
            let grand = self.leaders[parent];
            proof {
                assert(self.level@[parent as int] < self.level@[cur as int]);
                if parent != grand {
                    assert(self.level@[grand as int] < self.level@[parent as int]);
                }
                assert(grand != cur);
                assert(self.rep@[grand as int] == self.rep@[cur as int]);
            }
            let ghost pre = *self;
            self.leaders[cur] = grand;
            proof {
                assert forall|i: int|
                    0 <= i < self.leaders@.len() && (#[trigger] self.leaders@[i]) != i implies self.level@[self.leaders@[i] as int]
                    < self.level@[i] by {
                    if i == cur as int {
                        assert(self.leaders@[i] == grand);
                    } else {
                        assert(self.leaders@[i] == pre.leaders@[i]);
                    }
                }
                assert forall|i: int|
                    0 <= i < self.leaders@.len() implies self.rep@[#[trigger] self.leaders@[i] as int]
                    == self.rep@[i] by {
                    if i == cur as int {
                        assert(self.leaders@[i] == grand);
                    } else {
                        assert(self.leaders@[i] == pre.leaders@[i]);
                    }
                }
                assert forall|i: int|
                    0 <= i < self.leaders@.len() implies self.leaders@[#[trigger] self.rep@[i] as int]
                    == self.rep@[i] by {
                    assert(pre.leaders@[pre.rep@[i] as int] == pre.rep@[i]);
                    assert(pre.rep@[i] as int != cur as int);
                }
                assert(self.wf());
            }
            cur = grand;
        }
        proof {
            assert(self.rep@[cur as int] == cur);
        }
        cur
    }

    /// Root of `p`'s set, without path compression.
    ///
    /// Slower than [`DisjointSet::find_leader`] on deep trees, but reads
    /// only, so it can serve queries on a shared reference.
    pub fn leader_of(&self, p: usize) -> (r: usize)
        requires
            self.wf(),
            self.valid(p as int),
        ensures
            r == self.rep_of(p as int),
            self.valid(r as int),
    {
        let mut cur = p;
        while self.leaders[cur] != cur
            invariant
                self.wf(),
                self.valid(cur as int),
                self.rep@[cur as int] == self.rep@[p as int],
            decreases self.level@[cur as int],
        {
            proof {
                assert(self.level@[self.leaders@[cur as int] as int] < self.level@[cur as int]);
                assert(self.rep@[self.leaders@[cur as int] as int] == self.rep@[cur as int]);
            }
            cur = self.leaders[cur];
        }
        proof {
            assert(self.rep@[cur as int] == cur);
        }
        cur
    }

    /// The balance hint stored for element `i`.
    pub closed spec fn rank_of(&self, i: int) -> usize {
        self.ranks@[i]
    }

    /// Reads the balance hint of element `i`; meaningful at roots only.
    pub fn rank_hint(&self, i: usize) -> (r: usize)
        requires
            self.wf(),
            self.valid(i as int),
        ensures
            r == self.rank_of(i as int),
    {
        self.ranks[i]
    }

    /// `true` iff `p` and `q` are in the same set.
    ///
    /// Mutates the forest (path compression) but not any membership.
    pub fn connected(&mut self, p: usize, q: usize) -> (r: bool)
        requires
            old(self).wf(),
            old(self).valid(p as int),
            old(self).valid(q as int),
        ensures
            final(self).wf(),
            final(self).count_spec() == old(self).count_spec(),
            forall|i: int| old(self).valid(i) ==> final(self).rep_of(i) == old(self).rep_of(i),
            r == old(self).is_connected(p as int, q as int),
    {
        let rp = self.find_leader(p);
        let rq = self.find_leader(q);
        rp == rq
    }

    /// The two roots when `p` and `q` are in different sets, `None` when
    /// they already share one.
    pub fn find_leaders(&mut self, p: usize, q: usize) -> (r: Option<(usize, usize)>)
        requires
            old(self).wf(),
            old(self).valid(p as int),
            old(self).valid(q as int),
        ensures
            final(self).wf(),
            final(self).count_spec() == old(self).count_spec(),
            forall|i: int| old(self).valid(i) ==> final(self).rep_of(i) == old(self).rep_of(i),
            match r {
                None => old(self).is_connected(p as int, q as int),
                Some(pair) => !old(self).is_connected(p as int, q as int) && pair.0 == old(
                    self,
                ).rep_of(p as int) && pair.1 == old(self).rep_of(q as int),
            },
    {
        let rp = self.find_leader(p);
        let rq = self.find_leader(q);
        if rp == rq {
            None
        } else {
            Some((rp, rq))
        }
    }

    /// Merges `p`'s and `q`'s sets; a no-op when already connected.
    ///
    /// Under `ByRank` the lower-rank root is attached below the
    /// higher-rank one; on a tie the survivor's rank grows by one.
    pub fn union(&mut self, p: usize, q: usize)
        requires
            old(self).wf(),
            old(self).valid(p as int),
            old(self).valid(q as int),
        ensures
            final(self).wf(),
            union_post(*old(self), *final(self), p as int, q as int),
    {
        let rp = self.find_leader(p);
        let rq = self.find_leader(q);
        if rp == rq {
            return ;
        }
        proof {
            self.lemma_rep_is_root(p as int);
            self.lemma_rep_is_root(q as int);
            assert(self.rep_of(p as int) == rp);
            assert(self.rep_of(q as int) == rq);
        }
        let use_rank = match self.policy {
            MergePolicy::ByRank => true,
            MergePolicy::NaiveAttach => false,
        };
        let (loser, winner) = if use_rank && self.ranks[rp] > self.ranks[rq] {
            (rq, rp)
        } else {
            (rp, rq)
        };
        if use_rank && self.ranks[rp] == self.ranks[rq] && self.ranks[rq] < usize::MAX {
            let bumped = self.ranks[rq] + 1;
            self.ranks[rq] = bumped;
        }
        let ghost pre = *self;
        self.leaders[loser] = winner;
        proof {
            self.rep = Ghost(
                Seq::new(
                    pre.rep@.len(),
                    |i: int|
                        if pre.rep@[i] == loser {
                            winner
                        } else {
                            pre.rep@[i]
                        },
                ),
            );
            self.level = Ghost(
                Seq::new(
                    pre.level@.len(),
                    |i: int|
                        if pre.rep@[i] == loser {
                            (pre.level@[i] + pre.level@[winner as int] + 1) as nat
                        } else {
                            pre.level@[i]
                        },
                ),
            );
            self.lemma_union_restores_wf(pre, loser, winner);
            assert forall|a: int, b: int| old(self).valid(a) && old(self).valid(b) implies (
                #[trigger] self.is_connected(a, b) <==> (old(self).is_connected(a, b) || (old(
                    self,
                ).is_connected(a, p as int) && old(self).is_connected(b, q as int)) || (old(
                    self,
                ).is_connected(a, q as int) && old(self).is_connected(b, p as int)))) by {
                assert(self.rep@[a] == (if pre.rep@[a] == loser {
                    winner
                } else {
                    pre.rep@[a]
                }));
                assert(self.rep@[b] == (if pre.rep@[b] == loser {
                    winner
                } else {
                    pre.rep@[b]
                }));
                assert(pre.rep@[winner as int] == winner);
            }
        }
    }

    /// After re-linking root `loser` under root `winner` and re-labelling
    /// the ghost model accordingly, the forest is well-formed again.
    proof fn lemma_union_restores_wf(&self, pre: DisjointSet, loser: usize, winner: usize)
        requires
            pre.wf(),
            pre.valid(loser as int),
            pre.valid(winner as int),
            pre.rep_of(loser as int) == loser,
            pre.rep_of(winner as int) == winner,
            loser != winner,
            self.leaders@ == pre.leaders@.update(loser as int, winner),
            self.ranks@.len() == pre.ranks@.len(),
            self.rep@ == Seq::new(
                pre.rep@.len(),
                |i: int|
                    if pre.rep@[i] == loser {
                        winner
                    } else {
                        pre.rep@[i]
                    },
            ),
            self.level@ == Seq::new(
                pre.level@.len(),
                |i: int|
                    if pre.rep@[i] == loser {
                        (pre.level@[i] + pre.level@[winner as int] + 1) as nat
                    } else {
                        pre.level@[i]
                    },
            ),
        ensures
            self.wf(),
            self.count_spec() == pre.count_spec(),
    {
        let n = self.leaders@.len() as int;
        assert(pre.leaders@[winner as int] == winner);
        assert(pre.leaders@[loser as int] == loser);
        assert forall|i: int| 0 <= i < n implies (#[trigger] self.leaders@[i]) < n by {
            if i != loser as int {
                assert(self.leaders@[i] == pre.leaders@[i]);
            }
        }
        assert forall|i: int| 0 <= i < n implies (#[trigger] self.rep@[i]) < n by {
            assert(pre.rep@[i] < n);
        }
        assert forall|i: int| 0 <= i < n implies self.rep@[#[trigger] self.leaders@[i] as int]
            == self.rep@[i] by {
            if i == loser as int {
                assert(self.leaders@[i] == winner);
                assert(pre.rep@[winner as int] == winner);
            } else {
                assert(self.leaders@[i] == pre.leaders@[i]);
                assert(pre.rep@[pre.leaders@[i] as int] == pre.rep@[i]);
            }
        }
        assert forall|i: int| 0 <= i < n implies self.leaders@[#[trigger] self.rep@[i] as int]
            == self.rep@[i] by {
            if pre.rep@[i] == loser {
                assert(self.rep@[i] == winner);
                assert(pre.leaders@[winner as int] == winner);
            } else {
                assert(self.rep@[i] == pre.rep@[i]);
                assert(pre.leaders@[pre.rep@[i] as int] == pre.rep@[i]);
                assert(pre.rep@[i] != loser);
            }
        }
        assert forall|i: int| 0 <= i < n && (#[trigger] self.leaders@[i]) == i implies self.rep@[i]
            == i by {
            assert(i != loser as int);
            assert(self.leaders@[i] == pre.leaders@[i]);
            assert(pre.rep@[i] == i);
        }
        assert forall|i: int|
            0 <= i < n && (#[trigger] self.leaders@[i]) != i implies self.level@[self.leaders@[i] as int]
            < self.level@[i] by {
            if i == loser as int {
                assert(self.leaders@[i] == winner);
                assert(pre.rep@[winner as int] == winner);
                assert(self.level@[winner as int] == pre.level@[winner as int]);
                assert(self.level@[i] == pre.level@[i] + pre.level@[winner as int] + 1);
            } else {
                let pa = pre.leaders@[i] as int;
                assert(self.leaders@[i] == pre.leaders@[i]);
                assert(pre.level@[pa] < pre.level@[i]);
                assert(pre.rep@[pa] == pre.rep@[i]);
            }
        }
    }

    /// Appends `n` fresh singleton elements with indices
    /// `[count, count + n)`, leaving every existing set untouched.
    pub fn extend(&mut self, n: usize)
        requires
            old(self).wf(),
            old(self).count_spec() + n <= usize::MAX,
        ensures
            final(self).wf(),
            extend_post(*old(self), *final(self), n as int),
    {
        let base = self.leaders.len();
        let mut i: usize = 0;
        while i < n
            invariant
                i <= n,
                base + n <= usize::MAX,
                base == old(self).count_spec(),
                self.leaders@.len() == base + i,
                self.ranks@.len() == base + i,
                forall|j: int| 0 <= j < base ==> self.leaders@[j] == old(self).leaders@[j],
                forall|j: int| base <= j < base + i ==> self.leaders@[j] == j,
                forall|j: int| base <= j < base + i ==> self.ranks@[j] == 0,
                self.rep@ == old(self).rep@,
                self.level@ == old(self).level@,
                self.ranks@.subrange(0, base as int) == old(self).ranks@,
                self.policy == old(self).policy,
            decreases n - i,
        {
            let fresh = base + i;
            self.leaders.push(fresh);
            self.ranks.push(0);
            proof {
                assert(self.ranks@.subrange(0, base as int) == self.ranks@.drop_last().subrange(
                    0,
                    base as int,
                ));
            }
            i = i + 1;
        }
        let ghost pre = *old(self);
        let ghost total = (base + n) as nat;
        proof {
            self.rep = Ghost(
                Seq::new(
                    total,
                    |j: int|
                        if j < base {
                            pre.rep@[j]
                        } else {
                            j as usize
                        },
                ),
            );
            self.level = Ghost(
                Seq::new(
                    total,
                    |j: int|
                        if j < base {
                            pre.level@[j]
                        } else {
                            0nat
                        },
                ),
            );
            let m = self.leaders@.len() as int;
            assert forall|j: int| 0 <= j < m implies (#[trigger] self.leaders@[j]) < m
                && self.rep@[#[trigger] self.leaders@[j] as int] == self.rep@[j] && (
            self.leaders@[j] == j ==> self.rep@[j] == j) && (self.leaders@[j] != j
                ==> self.level@[self.leaders@[j] as int] < self.level@[j]) by {
                if j < base {
                    assert(self.leaders@[j] == pre.leaders@[j]);
                    assert(pre.leaders@[j] < base);
                    assert(pre.rep@[pre.leaders@[j] as int] == pre.rep@[j]);
                    assert(pre.rep@[j] < base);
                } else {
                    assert(self.leaders@[j] == j);
                }
            }
            assert forall|j: int| 0 <= j < m implies (#[trigger] self.rep@[j]) < m
                && self.leaders@[#[trigger] self.rep@[j] as int] == self.rep@[j] by {
                if j < base {
                    assert(self.rep@[j] == pre.rep@[j]);
                    assert(pre.rep@[j] < base);
                    assert(pre.leaders@[pre.rep@[j] as int] == pre.rep@[j]);
                } else {
                    assert(self.rep@[j] == j);
                }
            }
            assert(self.wf());
            assert forall|a: int, b: int| pre.valid(a) && pre.valid(b) implies (
                #[trigger] self.is_connected(a, b) <==> pre.is_connected(a, b)) by {
                assert(self.rep@[a] == pre.rep@[a]);
                assert(self.rep@[b] == pre.rep@[b]);
            }
            assert forall|a: int, b: int|
                pre.count_spec() <= a < self.count_spec() && self.valid(b) implies (
            #[trigger] self.is_connected(a, b) <==> a == b) by {
                assert(self.rep@[a] == a);
                if b < base {
                    assert(self.rep@[b] == pre.rep@[b]);
                    assert(pre.rep@[b] < base);
                } else {
                    assert(self.rep@[b] == b);
                }
            }
        }
    }

    /// A root with no direct children is the only member of its set.
    proof fn lemma_no_child_sole_member(&self, r: usize, j: int)
        requires
            self.wf(),
            self.valid(r as int),
            self.valid(j),
            self.leaders@[r as int] == r,
            forall|c: int| 0 <= c < self.count_spec() && c != r ==> self.leaders@[c] != r,
            j != r,
        ensures
            self.rep@[j] != r,
        decreases self.level@[j],
    {
        if self.rep@[j] == r {
            let pa = self.leaders@[j] as int;
            if pa == j {
                assert(self.rep@[j] == j);
            } else {
                assert(self.rep@[pa] == self.rep@[j]);
                assert(pa != r);
                self.lemma_no_child_sole_member(r, pa);
            }
        }
    }

    /// Moves the single element `p` out of its set and into `q`'s set.
    ///
    /// A no-op when `p` and `q` are already connected.  Otherwise `p`'s
    /// direct children are re-parented first — onto `p`'s own parent, or,
    /// when `p` is a root, onto the first child, which becomes the new
    /// root of the remaining set — so no element ever routes through the
    /// departed `p`.  The rank of the set `p` leaves is lowered when its
    /// root departs, and the receiving root's rank accounts for `p`
    /// hanging below it; both stay pure balance hints.
    pub fn move_element(&mut self, p: usize, q: usize)
        requires
            old(self).wf(),
            old(self).valid(p as int),
            old(self).valid(q as int),
        ensures
            final(self).wf(),
            move_post(*old(self), *final(self), p as int, q as int),
    {
        let rp = self.find_leader(p);
        let rq = self.find_leader(q);
        if rp == rq {
            return ;
        }
        proof {
            self.lemma_rep_is_root(p as int);
            self.lemma_rep_is_root(q as int);
        }
        let n = self.leaders.len();
        let is_root = rp == p;
        let pp = self.leaders[p];
        proof {
            assert(self.rep@[pp as int] == self.rep@[p as int]);
            if !is_root {
                assert(self.leaders@[p as int] != p);
            }
        }
        let ghost s1 = *self;
        let mut target: usize = pp;
        let mut have_target: bool = !is_root;
        let mut e: usize = 0;
        while e < n
            invariant
                e <= n,
                n == s1.leaders@.len(),
                self.leaders@.len() == n,
                self.ranks@ == s1.ranks@,
                self.rep@ == s1.rep@,
                self.level@ == s1.level@,
                self.policy == s1.policy,
                s1.wf(),
                0 <= (p as int) < n,
                0 <= (q as int) < n,
                rp == s1.rep@[p as int],
                rq == s1.rep@[q as int],
                rp != rq,
                s1.rep@[rp as int] == rp,
                s1.rep@[rq as int] == rq,
                s1.leaders@[rp as int] == rp,
                s1.leaders@[rq as int] == rq,
                is_root <==> rp == p,
                pp == s1.leaders@[p as int],
                s1.rep@[pp as int] == rp,
                is_root ==> pp == p,
                !is_root ==> pp != p && have_target && target == pp,
                have_target ==> target < n && target != p,
                (is_root && have_target) ==> s1.leaders@[target as int] == p
                    && s1.rep@[target as int] == rp,
                !have_target ==> is_root && target == pp && forall|j: int|
                    0 <= j < e && j != p ==> s1.leaders@[j] != p,
                forall|j: int|
                    0 <= j < n ==> (#[trigger] self.leaders@[j]) == (if j < e && j != p
                        && s1.leaders@[j] == p {
                        target
                    } else {
                        s1.leaders@[j]
                    }),
            decreases n - e,
        {
            if e != p && self.leaders[e] == p {
                if !have_target {
                    target = e;
                    have_target = true;
                }
                self.leaders[e] = target;
            }
            e = e + 1;
        }
        self.leaders[p] = rq;
        if is_root {
            if have_target {
                let hint = self.ranks[p];
                self.ranks[target] = if hint > 0 {
                    hint - 1
                } else {
                    0
                };
            }
        }
        if self.ranks[rq] == 0 {
            self.ranks[rq] = 1;
        }
        proof {
            let ghost remap_class = is_root && have_target;
            self.rep = Ghost(
                Seq::new(
                    s1.rep@.len(),
                    |i: int|
                        if i == p as int {
                            rq
                        } else if remap_class && s1.rep@[i] == rp {
                            target
                        } else {
                            s1.rep@[i]
                        },
                ),
            );
            self.level = Ghost(
                Seq::new(
                    s1.level@.len(),
                    |i: int|
                        if i == p as int {
                            s1.level@[rq as int] + 1
                        } else if remap_class && i == target as int {
                            0nat
                        } else {
                            s1.level@[i]
                        },
                ),
            );
            if is_root && !have_target {
                assert forall|j: int| 0 <= j < n && j != p implies s1.rep@[j] != rp by {
                    s1.lemma_no_child_sole_member(p, j);
                }
            }
            // the final leader array, pointwise
            assert forall|j: int| 0 <= j < n implies (#[trigger] self.leaders@[j]) == (if j
                == p as int {
                rq
            } else if j != p && s1.leaders@[j] == p {
                target
            } else {
                s1.leaders@[j]
            }) by {}
            // no element links to the departed p any more
            assert forall|j: int| 0 <= j < n implies (#[trigger] self.leaders@[j]) != p by {
                if j == p as int {
                    assert(self.leaders@[j] == rq);
                    assert(rq != p) by {
                        if rq == p {
                            assert(s1.rep@[p as int] == rp);
                        }
                    }
                } else if s1.leaders@[j] == p {
                    assert(self.leaders@[j] == target);
                } else {
                    assert(self.leaders@[j] == s1.leaders@[j]);
                }
            }
            assert(rq != p) by {
                if rq == p {
                    assert(s1.rep@[p as int] == rp);
                    assert(s1.rep@[rq as int] == rq);
                }
            }
            assert(rq != target) by {
                if rq == target {
                    if have_target {
                        if is_root {
                            assert(s1.rep@[target as int] == rp);
                        } else {
                            assert(target == pp);
                            assert(s1.rep@[pp as int] == rp);
                        }
                    } else {
                        assert(target == pp && pp == p);
                        assert(s1.rep@[p as int] == rp);
                    }
                    assert(s1.rep@[rq as int] == rq);
                }
            }
            self.lemma_move_restores_wf(s1, p, rp, rq, target, remap_class);
            assert forall|a: int, b: int| old(self).valid(a) && old(self).valid(b) implies (
                #[trigger] self.is_connected(a, b) <==> (if a == p as int && b == p as int {
                    true
                } else if a == p as int {
                    old(self).is_connected(b, q as int)
                } else if b == p as int {
                    old(self).is_connected(a, q as int)
                } else {
                    old(self).is_connected(a, b)
                })) by {
                assert(old(self).rep_of(a) == s1.rep@[a]);
                assert(old(self).rep_of(b) == s1.rep@[b]);
                assert(old(self).rep_of(q as int) == rq);
                assert(self.rep@[a] == (if a == p as int {
                    rq
                } else if remap_class && s1.rep@[a] == rp {
                    target
                } else {
                    s1.rep@[a]
                }));
                assert(self.rep@[b] == (if b == p as int {
                    rq
                } else if remap_class && s1.rep@[b] == rp {
                    target
                } else {
                    s1.rep@[b]
                }));
                assert(s1.leaders@[s1.rep@[a] as int] == s1.rep@[a]);
                assert(s1.leaders@[s1.rep@[b] as int] == s1.rep@[b]);
                if remap_class {
                    assert(s1.leaders@[target as int] == p);
                    assert(target != p);
                }
            }
        }
    }

    /// After the departed `p` has been re-linked under `rq`, its direct
    /// children re-parented onto `target`, and the ghost model
    /// re-labelled, the forest is well-formed again.
    ///
    /// `remap_class` says `p` was the root of a non-singleton set, whose
    /// remaining members now answer to the new root `target`.
    proof fn lemma_move_restores_wf(
        &self,
        s1: DisjointSet,
        p: usize,
        rp: usize,
        rq: usize,
        target: usize,
        remap_class: bool,
    )
        requires
            s1.wf(),
            s1.valid(p as int),
            rp == s1.rep@[p as int],
            s1.valid(rq as int),
            s1.rep@[rq as int] == rq,
            s1.leaders@[rq as int] == rq,
            rq != rp,
            rq != p,
            rq != target,
            s1.rep@[rp as int] == rp,
            s1.leaders@[rp as int] == rp,
            remap_class ==> rp == p && s1.valid(target as int) && s1.leaders@[target as int] == p
                && s1.rep@[target as int] == rp && target != p,
            (!remap_class && rp != p) ==> s1.valid(target as int) && target
                == s1.leaders@[p as int] && target != p && s1.rep@[target as int] == rp,
            (!remap_class && rp == p) ==> forall|j: int|
                0 <= j < s1.leaders@.len() && j != p ==> s1.leaders@[j] != p,
            (!remap_class && rp == p) ==> forall|j: int|
                0 <= j < s1.leaders@.len() && j != p ==> s1.rep@[j] != rp,
            self.leaders@.len() == s1.leaders@.len(),
            self.ranks@.len() == s1.leaders@.len(),
            forall|j: int|
                0 <= j < s1.leaders@.len() ==> (#[trigger] self.leaders@[j]) == (if j == p as int {
                    rq
                } else if j != p && s1.leaders@[j] == p {
                    target
                } else {
                    s1.leaders@[j]
                }),
            self.rep@ == Seq::new(
                s1.rep@.len(),
                |i: int|
                    if i == p as int {
                        rq
                    } else if remap_class && s1.rep@[i] == rp {
                        target
                    } else {
                        s1.rep@[i]
                    },
            ),
            self.level@ == Seq::new(
                s1.level@.len(),
                |i: int|
                    if i == p as int {
                        (s1.level@[rq as int] + 1) as nat
                    } else if remap_class && i == target as int {
                        0nat
                    } else {
                        s1.level@[i]
                    },
            ),
        ensures
            self.wf(),
            self.count_spec() == s1.count_spec(),
    {
        let n = self.leaders@.len() as int;
        assert forall|j: int| 0 <= j < n implies (#[trigger] self.leaders@[j]) < n by {
            if j != p as int && s1.leaders@[j] == p {
                assert(j != p);
            }
        }
        assert forall|j: int| 0 <= j < n implies (#[trigger] self.rep@[j]) < n by {
            assert(s1.rep@[j] < n);
        }
        assert forall|j: int| 0 <= j < n implies self.rep@[#[trigger] self.leaders@[j] as int]
            == self.rep@[j] by {
            if j == p as int {
                assert(self.leaders@[j] == rq);
                assert(self.rep@[rq as int] == rq);
            } else if s1.leaders@[j] == p {
                // j is a re-parented child of p; its set had root rp
                assert(s1.rep@[j] == s1.rep@[p as int]);
                assert(self.leaders@[j] == target);
                if remap_class {
                    assert(self.rep@[j] == target);
                    assert(self.rep@[target as int] == target);
                } else {
                    assert(rp != p) by {
                        if rp == p {
                            assert(s1.leaders@[j] != p);
                        }
                    }
                    assert(self.rep@[j] == rp);
                    assert(self.rep@[target as int] == rp);
                }
            } else {
                let pa = s1.leaders@[j] as int;
                assert(self.leaders@[j] == s1.leaders@[j]);
                assert(s1.rep@[pa] == s1.rep@[j]);
                assert(pa != p);
            }
        }
        assert forall|j: int| 0 <= j < n implies self.leaders@[#[trigger] self.rep@[j] as int]
            == self.rep@[j] by {
            if j == p as int {
                assert(self.rep@[j] == rq);
                assert(s1.leaders@[rq as int] == rq);
            } else if remap_class && s1.rep@[j] == rp {
                assert(self.rep@[j] == target);
                assert(s1.leaders@[target as int] == p);
                assert(self.leaders@[target as int] == target);
            } else {
                let r = s1.rep@[j] as int;
                assert(self.rep@[j] == s1.rep@[j]);
                assert(s1.leaders@[r] == s1.rep@[j]);
                assert(r != p) by {
                    if r == p as int {
                        // then p is its own leader, hence a root
                        assert(s1.leaders@[p as int] == p);
                        assert(s1.rep@[p as int] == p);
                        if remap_class {
                            assert(s1.rep@[j] != rp);
                        } else if rp == p {
                            assert(s1.rep@[j] != rp);
                        }
                    }
                }
                assert(s1.leaders@[r] != p);
            }
        }
        assert forall|j: int| 0 <= j < n && (#[trigger] self.leaders@[j]) == j implies self.rep@[j]
            == j by {
            if j == p as int {
                assert(self.leaders@[j] == rq);
            } else if s1.leaders@[j] == p {
                assert(self.leaders@[j] == target);
                if j == target as int {
                    if remap_class {
                        assert(self.rep@[j] == target);
                    } else {
                        // a two-cycle between p and its parent is impossible
                        assert(rp != p) by {
                            if rp == p {
                                assert(s1.leaders@[j] != p);
                            }
                        }
                        assert(s1.leaders@[p as int] == target);
                        assert(s1.level@[p as int] < s1.level@[j]);
                        assert(s1.level@[j] < s1.level@[p as int]);
                    }
                }
            } else {
                assert(self.leaders@[j] == s1.leaders@[j]);
                assert(s1.rep@[j] == j);
                if remap_class && s1.rep@[j] == rp {
                    assert(j == p as int);
                }
                assert(self.rep@[j] == s1.rep@[j]);
            }
        }
        assert forall|j: int|
            0 <= j < n && (#[trigger] self.leaders@[j]) != j implies self.level@[self.leaders@[j] as int]
            < self.level@[j] by {
            if j == p as int {
                assert(self.leaders@[j] == rq);
                assert(self.level@[rq as int] == s1.level@[rq as int]);
                assert(self.level@[j] == s1.level@[rq as int] + 1);
            } else if s1.leaders@[j] == p {
                assert(self.leaders@[j] == target);
                assert(j != target as int);
                assert(s1.level@[p as int] < s1.level@[j]);
                assert(self.level@[j] == s1.level@[j]);
                if remap_class {
                    assert(self.level@[target as int] == 0);
                } else {
                    assert(rp != p) by {
                        if rp == p {
                            assert(s1.leaders@[j] != p);
                        }
                    }
                    assert(s1.leaders@[p as int] == target);
                    assert(target != p);
                    assert(s1.level@[target as int] < s1.level@[p as int]);
                    assert(self.level@[target as int] == s1.level@[target as int]);
                }
            } else {
                let pa = s1.leaders@[j] as int;
                assert(self.leaders@[j] == s1.leaders@[j]);
                assert(s1.level@[pa] < s1.level@[j]);
                assert(pa != p);
                assert(self.level@[j] == s1.level@[j]) by {
                    if remap_class && j == target as int {
                        assert(s1.leaders@[j] == p);
                    }
                }
                if remap_class && pa == target as int {
                    assert(self.level@[pa] == 0);
                } else {
                    assert(self.level@[pa] == s1.level@[pa]);
                }
            }
        }
    }

    spec fn steps_to_root_aux(self, i: int) -> nat
        decreases self.level@[i],
        when self.wf() && self.valid(i)
    {
        if self.leaders@[i] == i {
            0
        } else {
            self.steps_to_root_aux(self.leaders@[i] as int) + 1
        }
    }

    /// Number of leader links between `i` and the root of its set.
    pub closed spec fn steps_to_root(self, i: int) -> nat {
        self.steps_to_root_aux(i)
    }

    /// Length of the walk from `p` to its root, capped at the universe
    /// size.  Reads only; no path compression.  The cap can never bite —
    /// the walk visits distinct elements — but keeps the count total.
    pub fn path_length(&self, p: usize) -> (r: usize)
        requires
            self.wf(),
            self.valid(p as int),
        ensures
            r == (if self.steps_to_root(p as int) <= self.count_spec() {
                self.steps_to_root(p as int)
            } else {
                self.count_spec()
            }),
    {
        let n = self.leaders.len();
        let mut cur = p;
        let mut steps: usize = 0;
        while self.leaders[cur] != cur && steps < n
            invariant
                self.wf(),
                n == self.count_spec(),
                self.valid(cur as int),
                steps <= n,
                steps + self.steps_to_root(cur as int) == self.steps_to_root(p as int),
            decreases self.level@[cur as int],
        {
            proof {
                assert(self.level@[self.leaders@[cur as int] as int] < self.level@[cur as int]);
            }
            cur = self.leaders[cur];
            steps = steps + 1;
        }
        steps
    }

    /// Resets to the empty universe, discarding all set structure.
    pub fn clear(&mut self)
        ensures
            final(self).wf(),
            final(self).count_spec() == 0,
    {
        self.leaders = Vec::new();
        self.ranks = Vec::new();
        self.rep = Ghost(Seq::empty());
        self.level = Ghost(Seq::empty());
    }
}

/// `connected` is an equivalence relation: reflexive, symmetric and
/// transitive over the elements of the universe.
pub proof fn lemma_connected_equivalence(s: DisjointSet, p: int, q: int, r: int)
    requires
        s.valid(p),
        s.valid(q),
        s.valid(r),
    ensures
        s.is_connected(p, p),
        s.is_connected(p, q) == s.is_connected(q, p),
        s.is_connected(p, q) && s.is_connected(q, r) ==> s.is_connected(p, r),
{
}

/// Union is idempotent: performing `union(p, q)` a second time leaves
/// every `connected` answer exactly as after the first time.
pub proof fn lemma_union_idempotent(
    s0: DisjointSet,
    s1: DisjointSet,
    s2: DisjointSet,
    p: int,
    q: int,
)
    requires
        s0.valid(p),
        s0.valid(q),
        union_post(s0, s1, p, q),
        union_post(s1, s2, p, q),
    ensures
        forall|a: int, b: int|
            s1.valid(a) && s1.valid(b) ==> #[trigger] s2.is_connected(a, b) == s1.is_connected(
                a,
                b,
            ),
{
    assert(s1.is_connected(p, q));
    assert forall|a: int, b: int| s1.valid(a) && s1.valid(b) implies #[trigger] s2.is_connected(
        a,
        b,
    ) == s1.is_connected(a, b) by {
        assert(s2.is_connected(a, b) <==> (s1.is_connected(a, b) || (s1.is_connected(a, p)
            && s1.is_connected(b, q)) || (s1.is_connected(a, q) && s1.is_connected(b, p))));
    }
}

/// The effect of a union does not depend on the order of its arguments:
/// after `union(p, q)` and after `union(q, p)` every `connected` answer
/// is the same, even though the surviving root may differ.
pub proof fn lemma_union_commutes(s0: DisjointSet, s1: DisjointSet, s2: DisjointSet, p: int, q: int)
    requires
        s0.valid(p),
        s0.valid(q),
        union_post(s0, s1, p, q),
        union_post(s0, s2, q, p),
    ensures
        forall|a: int, b: int|
            s0.valid(a) && s0.valid(b) ==> #[trigger] s1.is_connected(a, b) == s2.is_connected(
                a,
                b,
            ),
{
}

/// Moving `p` into `q`'s set connects `p` with `q`, and the set `p`
/// left stays internally connected: any two elements other than `p`
/// that shared `p`'s old set still share a set.
pub proof fn lemma_move_element_effect(s0: DisjointSet, s1: DisjointSet, p: int, q: int)
    requires
        s0.valid(p),
        s0.valid(q),
        move_post(s0, s1, p, q),
    ensures
        s1.is_connected(p, q),
        forall|a: int, b: int|
            s0.valid(a) && s0.valid(b) && a != p && b != p && s0.is_connected(a, p)
                && s0.is_connected(b, p) ==> #[trigger] s1.is_connected(a, b),
{
    assert(s1.is_connected(p, q) <==> (if p == q {
        true
    } else {
        s0.is_connected(q, q)
    }));
}

} // verus!
