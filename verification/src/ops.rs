//! Free-function entry points and a compact handle for script drivers.
//!
//! Operation-stream drivers historically worked on bare leader/rank
//! arrays through three free functions.  Those arrays alone cannot
//! carry the forest's invariants, so the functions here take the
//! verified [`DisjointSet`] engine instead and delegate to it;
//! [`UnionFind`] bundles the engine for drivers that prefer a handle
//! with just the query/merge interface.

use vstd::prelude::*;

use crate::dset::DisjointSet;
use crate::dset::union_post;

verus! {

/// Merges `p`'s and `q`'s sets in `set`; a no-op when already connected.
pub fn union(set: &mut DisjointSet, p: usize, q: usize)
    requires
        old(set).wf(),
        old(set).valid(p as int),
        old(set).valid(q as int),
    ensures
        final(set).wf(),
        union_post(*old(set), *final(set), p as int, q as int),
{
    set.union(p, q);
}

/// Root of `p`'s set in `set`, compressing the walked path.
pub fn find_leader(set: &mut DisjointSet, p: usize) -> (r: usize)
    requires
        old(set).wf(),
        old(set).valid(p as int),
    ensures
        final(set).wf(),
        final(set).count_spec() == old(set).count_spec(),
        forall|i: int| old(set).valid(i) ==> final(set).rep_of(i) == old(set).rep_of(i),
        r == old(set).rep_of(p as int),
{
    set.find_leader(p)
}

/// `true` iff `p` and `q` are in the same set of `set`.
pub fn connected(set: &mut DisjointSet, p: usize, q: usize) -> (r: bool)
    requires
        old(set).wf(),
        old(set).valid(p as int),
        old(set).valid(q as int),
    ensures
        final(set).wf(),
        final(set).count_spec() == old(set).count_spec(),
        forall|i: int| old(set).valid(i) ==> final(set).rep_of(i) == old(set).rep_of(i),
        r == old(set).is_connected(p as int, q as int),
{
    set.connected(p, q)
}

/// A by-rank union-find handle exposing only the operations an
/// operation-stream driver needs.
pub struct UnionFind {
    inner: DisjointSet,
}

impl View for UnionFind {
    type V = DisjointSet;

    closed spec fn view(&self) -> DisjointSet {
        self.inner
    }
}

impl UnionFind {
    /// Universe of `n` singleton sets, merging by rank.
    pub fn new(n: usize) -> (s: Self)
        ensures
            s@.wf(),
            s@.count_spec() == n,
            forall|p: int, q: int|
                s@.valid(p) && s@.valid(q) ==> (#[trigger] s@.is_connected(p, q) <==> p == q),
    {
        UnionFind { inner: DisjointSet::new(n) }
    }

    /// Merges `p`'s and `q`'s sets; a no-op when already connected.
    pub fn union(&mut self, p: usize, q: usize)
        requires
            old(self)@.wf(),
            old(self)@.valid(p as int),
            old(self)@.valid(q as int),
        ensures
            final(self)@.wf(),
            union_post(old(self)@, final(self)@, p as int, q as int),
    {
        self.inner.union(p, q);
    }

    /// Root of `p`'s set, compressing the walked path.
    pub fn find_leader(&mut self, p: usize) -> (r: usize)
        requires
            old(self)@.wf(),
            old(self)@.valid(p as int),
        ensures
            final(self)@.wf(),
            final(self)@.count_spec() == old(self)@.count_spec(),
            forall|i: int| old(self)@.valid(i) ==> final(self)@.rep_of(i) == old(self)@.rep_of(i),
            r == old(self)@.rep_of(p as int),
    {
        self.inner.find_leader(p)
    }

    /// `true` iff `p` and `q` are in the same set.
    pub fn connected(&mut self, p: usize, q: usize) -> (r: bool)
        requires
            old(self)@.wf(),
            old(self)@.valid(p as int),
            old(self)@.valid(q as int),
        ensures
            final(self)@.wf(),
            final(self)@.count_spec() == old(self)@.count_spec(),
            forall|i: int| old(self)@.valid(i) ==> final(self)@.rep_of(i) == old(self)@.rep_of(i),
            r == old(self)@.is_connected(p as int, q as int),
    {
        self.inner.connected(p, q)
    }
}

} // verus!
