//! Policy-facing pieces of the tree: the continuation instruction returned by
//! a rebalance step, the per-node balance state, and the dispatchers that
//! route engine callbacks to the active policy.

use vstd::prelude::*;

use crate::avl::AVLBalance;
use crate::redblack::RedBlackBalance;
use crate::tree::BalancePolicy;
use crate::tree::TreePath;
use crate::unbalanced::UnbalancedBalance;

verus! {

/// Where the up-the-tree rebalance walk should continue, relative to the
/// node a rebalance step just inspected.
#[derive(Clone, Copy, Debug, PartialEq, Eq, Structural)]
pub enum NodeOffset {
    /// Stop: no further ancestor needs inspection.
    Root,
    /// Continue one level up.
    Parent,
    /// Re-anchor at the given child of the just-rotated region.
    Child(TreePath),
}

/// The balance state a node carries, owned by the active policy.
#[derive(Clone, Copy, Debug, PartialEq, Eq, Structural)]
pub enum BalanceState {
    Avl(AVLBalance),
    RedBlack(RedBlackBalance),
    Unbalanced(UnbalancedBalance),
}

impl BalanceState {
    /// True when this state is of the kind the given policy owns.
    pub open spec fn matches(self, policy: BalancePolicy) -> bool {
        match policy {
            BalancePolicy::Avl => self is Avl,
            BalancePolicy::RedBlack => self is RedBlack,
            BalancePolicy::Unbalanced => self is Unbalanced,
        }
    }
}

/// The balance state the policy gives a freshly attached non-root node.
pub fn state_new(policy: BalancePolicy) -> (r: BalanceState)
    ensures
        r.matches(policy),
        r == spec_state_new(policy),
{
    match policy {
        BalancePolicy::Avl => BalanceState::Avl(AVLBalance::new()),
        BalancePolicy::RedBlack => BalanceState::RedBlack(RedBlackBalance::new()),
        BalancePolicy::Unbalanced => BalanceState::Unbalanced(UnbalancedBalance::new()),
    }
}

/// The balance state the policy gives a node created as the whole tree.
pub fn state_new_root(policy: BalancePolicy) -> (r: BalanceState)
    ensures
        r.matches(policy),
        r == spec_state_new_root(policy),
{
    match policy {
        BalancePolicy::Avl => BalanceState::Avl(AVLBalance::new_root()),
        BalancePolicy::RedBlack => BalanceState::RedBlack(RedBlackBalance::new_root()),
        BalancePolicy::Unbalanced => BalanceState::Unbalanced(UnbalancedBalance::new_root()),
    }
}

/// What `state_new` returns for each policy.
pub open spec fn spec_state_new(policy: BalancePolicy) -> BalanceState {
    match policy {
        BalancePolicy::Avl => BalanceState::Avl(AVLBalance {}),
        BalancePolicy::RedBlack => BalanceState::RedBlack(
            RedBlackBalance { color: crate::redblack::RBColor::Red },
        ),
        BalancePolicy::Unbalanced => BalanceState::Unbalanced(UnbalancedBalance {}),
    }
}

/// What `state_new_root` returns for each policy.
pub open spec fn spec_state_new_root(policy: BalancePolicy) -> BalanceState {
    match policy {
        BalancePolicy::Avl => BalanceState::Avl(AVLBalance {}),
        BalancePolicy::RedBlack => BalanceState::RedBlack(
            RedBlackBalance { color: crate::redblack::RBColor::Black },
        ),
        BalancePolicy::Unbalanced => BalanceState::Unbalanced(UnbalancedBalance {}),
    }
}

/// What `state_adjust_root` leaves behind: the Red-Black policy recolors a
/// node that becomes the root to black, the others change nothing.
pub open spec fn spec_adjust_root(b: BalanceState) -> BalanceState {
    match b {
        BalanceState::RedBlack(_) => BalanceState::RedBlack(
            RedBlackBalance { color: crate::redblack::RBColor::Black },
        ),
        other => other,
    }
}

/// Lets the active policy repair root-only invariants on the balance state
/// of a node that has just moved into the root position.
pub fn state_adjust_root(b: &mut BalanceState)
    ensures
        *final(b) == spec_adjust_root(*old(b)),
{
    match b {
        BalanceState::Avl(a) => a.adjust_root(),
        BalanceState::RedBlack(rb) => rb.adjust_root(),
        BalanceState::Unbalanced(u) => u.adjust_root(),
    }
}

} // verus!
