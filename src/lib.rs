//! Array-encoded range-query structures over user-supplied monoids: a segment tree,
//! a lazy-propagation segment tree with monoid actions, a segment tree over a
//! closure, a Fenwick tree and a disjoint-set union.

pub mod algebra;
mod heap;
pub mod monoids;
pub mod segment_tree;
pub mod lazy_segment_tree;
pub mod fenwick_tree;
pub mod segment_tree_with;
pub mod dsu;
