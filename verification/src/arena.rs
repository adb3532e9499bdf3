//! Arena-style views of the forest, with range-checked entry points.
//!
//! Earlier designs of this structure kept heap nodes chained by raw
//! parent pointers; here a node is a plain value addressed by its index,
//! which removes every aliasing hazard.  [`DisjoinedSet`] and
//! [`DSetPtr`] wrap the verified engine behind an API that answers
//! `None` for out-of-range indices instead of demanding in-range
//! arguments, and hand out root snapshots as [`Node`] values.

use vstd::prelude::*;

use crate::dset::DisjointSet;
use crate::dset::extend_post;
use crate::dset::union_post;

verus! {

/// A snapshot of one element of the forest: its index, its parent link
/// (`None` at a root) and its balance hint.
#[derive(Clone, Copy, Debug)]
pub struct Node {
    /// The element's index in the universe.
    pub element: usize,
    /// Index of the parent element; `None` at a root.
    pub parent: Option<usize>,
    /// Balance hint; meaningful at roots only.
    pub rank: usize,
}

impl Node {
    /// A fresh singleton node: its own root, rank zero.
    pub fn new(element: usize) -> (r: Node)
        ensures
            r.element == element,
            r.parent is None,
            r.rank == 0,
    {
        Node { element, parent: None, rank: 0 }
    }

    /// The element held by the node.
    pub fn into_element(&self) -> (r: usize)
        ensures
            r == self.element,
    {
        self.element
    }
}

impl PartialEq for Node {
    /// Two nodes are equal when they hold the same element.
    fn eq(&self, other: &Node) -> (r: bool) {
        self.element == other.element
    }
}

impl vstd::std_specs::cmp::PartialEqSpecImpl for Node {
    open spec fn obeys_eq_spec() -> bool {
        true
    }

    open spec fn eq_spec(&self, other: &Node) -> bool {
        self.element == other.element
    }
}

/// A disjoint-set structure whose queries check their indices and
/// answer `None` when an index lies outside the universe.
pub struct DisjoinedSet {
    inner: DisjointSet,
}

impl View for DisjoinedSet {
    type V = DisjointSet;

    closed spec fn view(&self) -> DisjointSet {
        self.inner
    }
}

impl DisjoinedSet {
    /// Universe of `n` singleton sets.
    pub fn new(n: usize) -> (s: Self)
        ensures
            s@.wf(),
            s@.count_spec() == n,
            forall|p: int, q: int|
                s@.valid(p) && s@.valid(q) ==> (#[trigger] s@.is_connected(p, q) <==> p == q),
    {
        DisjoinedSet { inner: DisjointSet::new(n) }
    }

    /// Appends `n` fresh singleton elements.
    pub fn extend(&mut self, n: usize)
        requires
            old(self)@.wf(),
            old(self)@.count_spec() + n <= usize::MAX,
        ensures
            final(self)@.wf(),
            extend_post(old(self)@, final(self)@, n as int),
    {
        self.inner.extend(n);
    }

    /// A snapshot of the root of `p`'s set, or `None` when `p` is
    /// outside the universe.
    pub fn get_root(&self, p: usize) -> (r: Option<Node>)
        requires
            self@.wf(),
        ensures
            match r {
                None => p >= self@.count_spec(),
                Some(node) => p < self@.count_spec() && node.element == self@.rep_of(p as int)
                    && node.parent is None && node.rank == self@.rank_of(
                    self@.rep_of(p as int) as int,
                ),
            },
    {
        if p < self.inner.count() {
            let root = self.inner.leader_of(p);
            Some(Node { element: root, parent: None, rank: self.inner.rank_hint(root) })
        } else {
            None
        }
    }

    /// Whether `p` and `q` share a set, or `None` when either index is
    /// outside the universe.
    pub fn connected(&self, p: usize, q: usize) -> (r: Option<bool>)
        requires
            self@.wf(),
        ensures
            match r {
                None => p >= self@.count_spec() || q >= self@.count_spec(),
                Some(b) => p < self@.count_spec() && q < self@.count_spec() && b == self@
                    .is_connected(p as int, q as int),
            },
    {
        if p < self.inner.count() && q < self.inner.count() {
            Some(self.inner.leader_of(p) == self.inner.leader_of(q))
        } else {
            None
        }
    }

    /// Merges `p`'s and `q`'s sets.  `None` when either index is outside
    /// the universe; otherwise says whether a merge actually happened.
    pub fn union(&mut self, p: usize, q: usize) -> (r: Option<bool>)
        requires
            old(self)@.wf(),
        ensures
            final(self)@.wf(),
            match r {
                None => (p >= old(self)@.count_spec() || q >= old(self)@.count_spec())
                    && final(self)@ == old(self)@,
                Some(b) => p < old(self)@.count_spec() && q < old(self)@.count_spec()
                    && union_post(old(self)@, final(self)@, p as int, q as int)
                    && (b <==> !old(self)@.is_connected(p as int, q as int)),
            },
    {
        if p < self.inner.count() && q < self.inner.count() {
            let merged = match self.inner.find_leaders(p, q) {
                None => false,
                Some(_) => true,
            };
            self.inner.union(p, q);
            Some(merged)
        } else {
            None
        }
    }

    /// Current universe size.
    pub fn count(&self) -> (r: usize)
        ensures
            r == self@.count_spec(),
    {
        self.inner.count()
    }
}

/// The same checked interface under the name of the boxed-node
/// design it replaces; `get_leader` is its root accessor.
pub struct DSetPtr {
    inner: DisjointSet,
}

impl View for DSetPtr {
    type V = DisjointSet;

    closed spec fn view(&self) -> DisjointSet {
        self.inner
    }
}

impl DSetPtr {
    /// Universe of `n` singleton sets.
    pub fn new(n: usize) -> (s: Self)
        ensures
            s@.wf(),
            s@.count_spec() == n,
            forall|p: int, q: int|
                s@.valid(p) && s@.valid(q) ==> (#[trigger] s@.is_connected(p, q) <==> p == q),
    {
        DSetPtr { inner: DisjointSet::new(n) }
    }

    /// Appends `n` fresh singleton elements.
    pub fn extend(&mut self, n: usize)
        requires
            old(self)@.wf(),
            old(self)@.count_spec() + n <= usize::MAX,
        ensures
            final(self)@.wf(),
            extend_post(old(self)@, final(self)@, n as int),
    {
        self.inner.extend(n);
    }

    /// A snapshot of the root of `p`'s set, or `None` when `p` is
    /// outside the universe.
    pub fn get_leader(&self, p: usize) -> (r: Option<Node>)
        requires
            self@.wf(),
        ensures
            match r {
                None => p >= self@.count_spec(),
                Some(node) => p < self@.count_spec() && node.element == self@.rep_of(p as int)
                    && node.parent is None && node.rank == self@.rank_of(
                    self@.rep_of(p as int) as int,
                ),
            },
    {
        if p < self.inner.count() {
            let root = self.inner.leader_of(p);
            Some(Node { element: root, parent: None, rank: self.inner.rank_hint(root) })
        } else {
            None
        }
    }

    /// Whether `p` and `q` share a set, or `None` when either index is
    /// outside the universe.
    pub fn connected(&self, p: usize, q: usize) -> (r: Option<bool>)
        requires
            self@.wf(),
        ensures
            match r {
                None => p >= self@.count_spec() || q >= self@.count_spec(),
                Some(b) => p < self@.count_spec() && q < self@.count_spec() && b == self@
                    .is_connected(p as int, q as int),
            },
    {
        if p < self.inner.count() && q < self.inner.count() {
            Some(self.inner.leader_of(p) == self.inner.leader_of(q))
        } else {
            None
        }
    }

    /// Merges `p`'s and `q`'s sets.  `None` when either index is outside
    /// the universe; otherwise says whether a merge actually happened.
    pub fn union(&mut self, p: usize, q: usize) -> (r: Option<bool>)
        requires
            old(self)@.wf(),
        ensures
            final(self)@.wf(),
            match r {
                None => (p >= old(self)@.count_spec() || q >= old(self)@.count_spec())
                    && final(self)@ == old(self)@,
                Some(b) => p < old(self)@.count_spec() && q < old(self)@.count_spec()
                    && union_post(old(self)@, final(self)@, p as int, q as int)
                    && (b <==> !old(self)@.is_connected(p as int, q as int)),
            },
    {
        if p < self.inner.count() && q < self.inner.count() {
            let merged = match self.inner.find_leaders(p, q) {
                None => false,
                Some(_) => true,
            };
            self.inner.union(p, q);
            Some(merged)
        } else {
            None
        }
    }

    /// Current universe size.
    pub fn count(&self) -> (r: usize)
        ensures
            r == self@.count_spec(),
    {
        self.inner.count()
    }
}

} // verus!
