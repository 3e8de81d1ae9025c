//! A strategy-parameterized self-balancing binary search tree.
//!
//! A single structural engine (owned child links, a rotation primitive, and
//! insert/delete/search traversals with bottom-up rebalancing) delegates all
//! balancing decisions to a pluggable policy: AVL height balancing, Red-Black
//! color balancing, or a no-op baseline that leaves the tree unbalanced.

pub mod avl;
pub mod redblack;
pub mod tree;
pub mod unbalanced;
