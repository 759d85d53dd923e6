//! A self-balancing binary search tree (AVL tree) whose values are their own
//! keys, with insertion, deletion, rebalancing and read-only queries, all
//! verified against a set-and-sequence model of the tree.
use vstd::prelude::*;

pub mod order;
pub mod tree;
