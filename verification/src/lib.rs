//! A buddy-system allocator core: a complete binary tree stored flat in an
//! array, where every node caches the largest free order reachable in its
//! subtree.  Allocation descends the tree preferring the left (lowest-address)
//! child, deallocation marks a node free and re-coalesces upward.

pub mod model;
pub mod lemmas;
pub mod tree;
pub mod const_init;
pub mod laws;
