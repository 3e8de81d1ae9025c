//! The no-op baseline policy: it never rotates, so the tree degrades to a
//! plain binary search tree. It exists to validate the policy contract.

use vstd::prelude::*;

use crate::tree::inspect::{BalanceState, NodeOffset};
use crate::tree::node::{node_height, node_leaves, TreeNode};
use crate::tree::TreePath;

verus! {

/// Relates the tree left behind by a plain (never rebalancing) insertion of
/// `key` into `t` to the tree `t` itself: the new key hangs as a fresh leaf
/// off the end of its search path, every node on that path keeps its key,
/// balance state and other child and re-derives its caches, and a key
/// already present changes nothing. This pins the exact shape the baseline
/// policy produces.
pub open spec fn plain_inserted(
    t: Option<Box<TreeNode>>,
    key: u32,
    r: Option<Box<TreeNode>>,
) -> bool
    decreases t,
{
    match t {
        None => r is Some && *r.unwrap() == (TreeNode {
            key,
            height: 1,
            leaves: 1,
            balance: BalanceState::Unbalanced(UnbalancedBalance {  }),
            left: None,
            right: None,
        }),
        Some(n) => {
            if key == n.key {
                r == t
            } else {
                r is Some && {
                    let m = *r.unwrap();
                    &&& m.key == n.key
                    &&& m.balance == n.balance
                    &&& m.height == node_height(m)
                    &&& m.leaves == node_leaves(m)
                    &&& if key < n.key {
                        m.right == n.right && plain_inserted(n.left, key, m.left)
                    } else {
                        m.left == n.left && plain_inserted(n.right, key, m.right)
                    }
                }
            }
        },
    }
}

/// Balance state of the baseline policy; carries no data.
#[derive(Clone, Copy, Debug, PartialEq, Eq, Structural)]
pub struct UnbalancedBalance {}

impl UnbalancedBalance {
    /// Balance state for a freshly attached non-root node.
    pub fn new() -> (r: UnbalancedBalance)
        ensures
            r == (UnbalancedBalance {}),
    {
        UnbalancedBalance {}
    }

    /// Balance state for a node created as the whole tree.
    pub fn new_root() -> (r: UnbalancedBalance)
        ensures
            r == (UnbalancedBalance {}),
    {
        UnbalancedBalance {}
    }

    /// Called when a node moves into the root position; nothing to adjust.
    pub fn adjust_root(&mut self)
        ensures
            *final(self) == *old(self),
    {
    }
}

/// Rebalance step after an insertion: no rotation, and no ancestor needs
/// inspection either.
pub fn rebalance_insert(node: Box<TreeNode>, _path: (TreePath, TreePath)) -> (r: (
    Box<TreeNode>,
    NodeOffset,
))
    ensures
        r.0 == node,
        r.1 is Root,
{
    (node, NodeOffset::Root)
}

/// Rebalance step after a deletion: likewise a no-op.
pub fn rebalance_delete(node: Box<TreeNode>, _upath: TreePath) -> (r: (Box<TreeNode>, NodeOffset))
    ensures
        r.0 == node,
        r.1 is Root,
{
    (node, NodeOffset::Root)
}

} // verus!
