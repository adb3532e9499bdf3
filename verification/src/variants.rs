//! The classic union-find variants, as facades over one engine.
//!
//! Quick-find, quick-union and weighted quick-union differ only in how
//! a merge picks the surviving root and in how much work a query does;
//! the `connected` relation they maintain is the same.  Instead of
//! duplicating the find/union logic per variant, each type here wraps
//! the single verified [`DisjointSet`] engine and fixes its
//! [`MergePolicy`]; the view `self@` of a variant is that engine, and
//! all contracts are phrased over it.

use vstd::prelude::*;

use crate::dset::DisjointSet;
use crate::dset::MergePolicy;
use crate::dset::extend_post;
use crate::dset::move_post;
use crate::dset::union_post;

verus! {

/// Union-find that merges without balancing: the first root is simply
/// attached under the second, as the historic quick-find layout did.
pub struct QuickFind {
    inner: DisjointSet,
}

/// Union-find that attaches `p`'s root under `q`'s root unconditionally.
pub struct QuickUnion {
    inner: DisjointSet,
}

/// Union-find that attaches the lower-rank root under the higher-rank
/// one, keeping every tree depth logarithmic in the universe size.
pub struct WeightedQuickUnion {
    inner: DisjointSet,
}

impl View for QuickFind {
    type V = DisjointSet;

    closed spec fn view(&self) -> DisjointSet {
        self.inner
    }
}

impl QuickFind {
    /// Universe of `n` singleton sets.
    pub fn new(n: usize) -> (s: Self)
        ensures
            s@.wf(),
            s@.count_spec() == n,
            forall|p: int, q: int|
                s@.valid(p) && s@.valid(q) ==> (#[trigger] s@.is_connected(p, q) <==> p == q),
    {
        QuickFind { inner: DisjointSet::with_policy(n, MergePolicy::NaiveAttach) }
    }

    /// Appends `n` fresh singleton elements.
    pub fn extend(&mut self, n: usize)
        requires
            old(self)@.wf(),
            old(self)@.count_spec() + n <= usize::MAX,
        ensures
            final(self)@.wf(),
            extend_post(old(self)@, final(self)@, n as int),
    {
        self.inner.extend(n);
    }

    /// Resets to the empty universe.
    pub fn clear(&mut self)
        ensures
            final(self)@.wf(),
            final(self)@.count_spec() == 0,
    {
        self.inner.clear();
    }

    /// Merges `p`'s and `q`'s sets; a no-op when already connected.
    pub fn union(&mut self, p: usize, q: usize)
        requires
            old(self)@.wf(),
            old(self)@.valid(p as int),
            old(self)@.valid(q as int),
        ensures
            final(self)@.wf(),
            union_post(old(self)@, final(self)@, p as int, q as int),
    {
        self.inner.union(p, q);
    }

    /// Root of `p`'s set.
    pub fn find_leader(&mut self, p: usize) -> (r: usize)
        requires
            old(self)@.wf(),
            old(self)@.valid(p as int),
        ensures
            final(self)@.wf(),
            final(self)@.count_spec() == old(self)@.count_spec(),
            forall|i: int| old(self)@.valid(i) ==> final(self)@.rep_of(i) == old(self)@.rep_of(i),
            r == old(self)@.rep_of(p as int),
    {
        self.inner.find_leader(p)
    }

    /// `true` iff `p` and `q` are in the same set.
    pub fn connected(&mut self, p: usize, q: usize) -> (r: bool)
        requires
            old(self)@.wf(),
            old(self)@.valid(p as int),
            old(self)@.valid(q as int),
        ensures
            final(self)@.wf(),
            final(self)@.count_spec() == old(self)@.count_spec(),
            forall|i: int| old(self)@.valid(i) ==> final(self)@.rep_of(i) == old(self)@.rep_of(i),
            r == old(self)@.is_connected(p as int, q as int),
    {
        self.inner.connected(p, q)
    }

    /// The two roots when `p` and `q` are in different sets.
    pub fn find_leaders(&mut self, p: usize, q: usize) -> (r: Option<(usize, usize)>)
        requires
            old(self)@.wf(),
            old(self)@.valid(p as int),
            old(self)@.valid(q as int),
        ensures
            final(self)@.wf(),
            final(self)@.count_spec() == old(self)@.count_spec(),
            forall|i: int| old(self)@.valid(i) ==> final(self)@.rep_of(i) == old(self)@.rep_of(i),
            match r {
                None => old(self)@.is_connected(p as int, q as int),
                Some(pair) => !old(self)@.is_connected(p as int, q as int) && pair.0 == old(
                    self,
                )@.rep_of(p as int) && pair.1 == old(self)@.rep_of(q as int),
            },
    {
        self.inner.find_leaders(p, q)
    }

    /// Moves the single element `p` into `q`'s set.
    pub fn move_element(&mut self, p: usize, q: usize)
        requires
            old(self)@.wf(),
            old(self)@.valid(p as int),
            old(self)@.valid(q as int),
        ensures
            final(self)@.wf(),
            move_post(old(self)@, final(self)@, p as int, q as int),
    {
        self.inner.move_element(p, q);
    }

    /// Current universe size.
    pub fn count(&self) -> (r: usize)
        ensures
            r == self@.count_spec(),
    {
        self.inner.count()
    }
}

impl View for QuickUnion {
    type V = DisjointSet;

    closed spec fn view(&self) -> DisjointSet {
        self.inner
    }
}

impl QuickUnion {
    /// Universe of `n` singleton sets.
    pub fn new(n: usize) -> (s: Self)
        ensures
            s@.wf(),
            s@.count_spec() == n,
            forall|p: int, q: int|
                s@.valid(p) && s@.valid(q) ==> (#[trigger] s@.is_connected(p, q) <==> p == q),
    {
        QuickUnion { inner: DisjointSet::with_policy(n, MergePolicy::NaiveAttach) }
    }

    /// Appends `n` fresh singleton elements.
    pub fn extend(&mut self, n: usize)
        requires
            old(self)@.wf(),
            old(self)@.count_spec() + n <= usize::MAX,
        ensures
            final(self)@.wf(),
            extend_post(old(self)@, final(self)@, n as int),
    {
        self.inner.extend(n);
    }

    /// Resets to the empty universe.
    pub fn clear(&mut self)
        ensures
            final(self)@.wf(),
            final(self)@.count_spec() == 0,
    {
        self.inner.clear();
    }

    /// Merges `p`'s and `q`'s sets; a no-op when already connected.
    pub fn union(&mut self, p: usize, q: usize)
        requires
            old(self)@.wf(),
            old(self)@.valid(p as int),
            old(self)@.valid(q as int),
        ensures
            final(self)@.wf(),
            union_post(old(self)@, final(self)@, p as int, q as int),
    {
        self.inner.union(p, q);
    }

    /// Root of `p`'s set.
    pub fn find_leader(&mut self, p: usize) -> (r: usize)
        requires
            old(self)@.wf(),
            old(self)@.valid(p as int),
        ensures
            final(self)@.wf(),
            final(self)@.count_spec() == old(self)@.count_spec(),
            forall|i: int| old(self)@.valid(i) ==> final(self)@.rep_of(i) == old(self)@.rep_of(i),
            r == old(self)@.rep_of(p as int),
    {
        self.inner.find_leader(p)
    }

    /// `true` iff `p` and `q` are in the same set.
    pub fn connected(&mut self, p: usize, q: usize) -> (r: bool)
        requires
            old(self)@.wf(),
            old(self)@.valid(p as int),
            old(self)@.valid(q as int),
        ensures
            final(self)@.wf(),
            final(self)@.count_spec() == old(self)@.count_spec(),
            forall|i: int| old(self)@.valid(i) ==> final(self)@.rep_of(i) == old(self)@.rep_of(i),
            r == old(self)@.is_connected(p as int, q as int),
    {
        self.inner.connected(p, q)
    }

    /// The two roots when `p` and `q` are in different sets.
    pub fn find_leaders(&mut self, p: usize, q: usize) -> (r: Option<(usize, usize)>)
        requires
            old(self)@.wf(),
            old(self)@.valid(p as int),
            old(self)@.valid(q as int),
        ensures
            final(self)@.wf(),
            final(self)@.count_spec() == old(self)@.count_spec(),
            forall|i: int| old(self)@.valid(i) ==> final(self)@.rep_of(i) == old(self)@.rep_of(i),
            match r {
                None => old(self)@.is_connected(p as int, q as int),
                Some(pair) => !old(self)@.is_connected(p as int, q as int) && pair.0 == old(
                    self,
                )@.rep_of(p as int) && pair.1 == old(self)@.rep_of(q as int),
            },
    {
        self.inner.find_leaders(p, q)
    }

    /// Moves the single element `p` into `q`'s set.
    pub fn move_element(&mut self, p: usize, q: usize)
        requires
            old(self)@.wf(),
            old(self)@.valid(p as int),
            old(self)@.valid(q as int),
        ensures
            final(self)@.wf(),
            move_post(old(self)@, final(self)@, p as int, q as int),
    {
        self.inner.move_element(p, q);
    }

    /// Current universe size.
    pub fn count(&self) -> (r: usize)
        ensures
            r == self@.count_spec(),
    {
        self.inner.count()
    }
}

impl View for WeightedQuickUnion {
    type V = DisjointSet;

    closed spec fn view(&self) -> DisjointSet {
        self.inner
    }
}

impl WeightedQuickUnion {
    /// Universe of `n` singleton sets.
    pub fn new(n: usize) -> (s: Self)
        ensures
            s@.wf(),
            s@.count_spec() == n,
            forall|p: int, q: int|
                s@.valid(p) && s@.valid(q) ==> (#[trigger] s@.is_connected(p, q) <==> p == q),
    {
        WeightedQuickUnion { inner: DisjointSet::with_policy(n, MergePolicy::ByRank) }
    }

    /// Appends `n` fresh singleton elements.
    pub fn extend(&mut self, n: usize)
        requires
            old(self)@.wf(),
            old(self)@.count_spec() + n <= usize::MAX,
        ensures
            final(self)@.wf(),
            extend_post(old(self)@, final(self)@, n as int),
    {
        self.inner.extend(n);
    }

    /// Resets to the empty universe.
    pub fn clear(&mut self)
        ensures
            final(self)@.wf(),
            final(self)@.count_spec() == 0,
    {
        self.inner.clear();
    }

    /// Merges `p`'s and `q`'s sets; a no-op when already connected.
    pub fn union(&mut self, p: usize, q: usize)
        requires
            old(self)@.wf(),
            old(self)@.valid(p as int),
            old(self)@.valid(q as int),
        ensures
            final(self)@.wf(),
            union_post(old(self)@, final(self)@, p as int, q as int),
    {
        self.inner.union(p, q);
    }

    /// Root of `p`'s set.
    pub fn find_leader(&mut self, p: usize) -> (r: usize)
        requires
            old(self)@.wf(),
            old(self)@.valid(p as int),
        ensures
            final(self)@.wf(),
            final(self)@.count_spec() == old(self)@.count_spec(),
            forall|i: int| old(self)@.valid(i) ==> final(self)@.rep_of(i) == old(self)@.rep_of(i),
            r == old(self)@.rep_of(p as int),
    {
        self.inner.find_leader(p)
    }

    /// `true` iff `p` and `q` are in the same set.
    pub fn connected(&mut self, p: usize, q: usize) -> (r: bool)
        requires
            old(self)@.wf(),
            old(self)@.valid(p as int),
            old(self)@.valid(q as int),
        ensures
            final(self)@.wf(),
            final(self)@.count_spec() == old(self)@.count_spec(),
            forall|i: int| old(self)@.valid(i) ==> final(self)@.rep_of(i) == old(self)@.rep_of(i),
            r == old(self)@.is_connected(p as int, q as int),
    {
        self.inner.connected(p, q)
    }

    /// The two roots when `p` and `q` are in different sets.
    pub fn find_leaders(&mut self, p: usize, q: usize) -> (r: Option<(usize, usize)>)
        requires
            old(self)@.wf(),
            old(self)@.valid(p as int),
            old(self)@.valid(q as int),
        ensures
            final(self)@.wf(),
            final(self)@.count_spec() == old(self)@.count_spec(),
            forall|i: int| old(self)@.valid(i) ==> final(self)@.rep_of(i) == old(self)@.rep_of(i),
            match r {
                None => old(self)@.is_connected(p as int, q as int),
                Some(pair) => !old(self)@.is_connected(p as int, q as int) && pair.0 == old(
                    self,
                )@.rep_of(p as int) && pair.1 == old(self)@.rep_of(q as int),
            },
    {
        self.inner.find_leaders(p, q)
    }

    /// Moves the single element `p` into `q`'s set.
    pub fn move_element(&mut self, p: usize, q: usize)
        requires
            old(self)@.wf(),
            old(self)@.valid(p as int),
            old(self)@.valid(q as int),
        ensures
            final(self)@.wf(),
            move_post(old(self)@, final(self)@, p as int, q as int),
    {
        self.inner.move_element(p, q);
    }

    /// Current universe size.
    pub fn count(&self) -> (r: usize)
        ensures
            r == self@.count_spec(),
    {
        self.inner.count()
    }
}

} // verus!
