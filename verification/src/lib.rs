//! A disjoint-set (union-find) library with verified connectivity semantics.
//!
//! The heart of the crate is [`dset::DisjointSet`]: a forest of upward
//! leader links over a dense universe `{0 .. count-1}`, supporting
//! `union`, `connected`, `find_leader` (with path compression),
//! `move_element`, and growth via `extend`.  Its contracts pin down the
//! connectivity relation exactly; the remaining modules are thin facades
//! over that one engine.

pub mod arena;
pub mod dset;
pub mod ops;
pub mod variants;

pub use dset::DisjointSet;
pub use dset::MergePolicy;
