//! A persistent (immutable) binary search tree.
//!
//! Every mutating operation returns a new tree value and leaves previously
//! obtained tree values unchanged; subtrees off the mutation path are shared.

pub mod laws;
pub mod tree;
