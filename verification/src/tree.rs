//! The tree handle and its public operations.

use vstd::prelude::*;

pub mod inspect;
pub mod node;
pub mod ops;

use crate::avl::{fib, lemma_avl_leaves_bound};
use crate::redblack::{is_red, rb_of};
use crate::tree::node::{
    avl_of, bst_of, caches_of, height_of, inorder_of, keys_of, leaves_of, lemma_bst_inorder_sorted,
    lemma_inorder_keys, lemma_keys_in_inorder, state_of, strictly_increasing, TreeNode,
};

verus! {

/// Describes the path from a node to one of its children, and, during
/// rebalancing, which side of a node grew or shrank.
#[derive(Clone, Copy, Debug, PartialEq, Eq, Structural)]
pub enum TreePath {
    Left,
    Right,
}

impl TreePath {
    /// The opposite direction of `self`.
    pub open spec fn spec_reflect(&self) -> TreePath {
        match self {
            TreePath::Left => TreePath::Right,
            TreePath::Right => TreePath::Left,
        }
    }

    /// Reflects a path (returns the opposite direction).
    #[verifier::when_used_as_spec(spec_reflect)]
    pub fn reflect(&self) -> (r: TreePath)
        ensures
            r == self.spec_reflect(),
    {
        match self {
            TreePath::Left => TreePath::Right,
            TreePath::Right => TreePath::Left,
        }
    }
}

/// Which balancing strategy a tree instance uses.
///
/// The policy is chosen once, when the tree is created; every node of the
/// tree then carries a balance state of the matching kind.
#[derive(Clone, Copy, Debug, PartialEq, Eq, Structural)]
pub enum BalancePolicy {
    Avl,
    RedBlack,
    Unbalanced,
}

/// A balanced binary search tree: an optional owning reference to a root
/// node, together with the balancing policy that drives rotations.
///
/// The tree itself performs no balancing decisions; it follows the
/// instructions of the policy selected at construction.
#[derive(Debug)]
pub struct Tree {
    policy: BalancePolicy,
    root: Option<Box<TreeNode>>,
}

impl View for Tree {
    type V = Set<u32>;

    /// The abstract value of a tree is the set of keys it stores.
    open spec fn view(&self) -> Set<u32> {
        self.spec_keys()
    }
}

impl Tree {
    /// The set of keys currently stored in the tree.
    pub closed spec fn spec_keys(self) -> Set<u32> {
        keys_of(self.root)
    }

    /// The link to the tree's root node, for contracts that speak of the
    /// tree's shape rather than only of its key set.
    pub closed spec fn spec_root(self) -> Option<Box<TreeNode>> {
        self.root
    }

    /// The policy this tree was created with.
    pub closed spec fn spec_policy(self) -> BalancePolicy {
        self.policy
    }

    /// The height of the tree: the number of nodes on the longest
    /// root-to-leaf path.
    pub closed spec fn spec_height(self) -> nat {
        height_of(self.root)
    }

    /// The number of leaf nodes of the tree.
    pub closed spec fn spec_leaves(self) -> nat {
        leaves_of(self.root)
    }

    /// The keys of the tree listed in order.
    pub closed spec fn spec_inorder(self) -> Seq<u32> {
        inorder_of(self.root)
    }

    /// Creates a new empty tree that balances itself with `policy`.
    pub fn new(policy: BalancePolicy) -> (r: Tree)
        ensures
            r.spec_keys() == Set::<u32>::empty(),
            r.spec_policy() == policy,
            r.spec_height() == 0,
            r.spec_leaves() == 0,
    {
        Tree { policy, root: None }
    }

    /// Returns true if the tree has no contents.
    pub fn is_empty(&self) -> (r: bool)
        ensures
            r == (self.spec_keys() == Set::<u32>::empty()),
            r == (self.spec_height() == 0),
    {
        proof {
            if self.root is Some {
                assert(self.spec_keys().contains(self.root.unwrap().key));
            } else {
                assert(self.spec_keys() =~= Set::<u32>::empty());
            }
        }
        self.root.is_none()
    }

    /// Clears the contents of the tree, keeping its policy.
    pub fn clear(&mut self)
        ensures
            final(self).spec_keys() == Set::<u32>::empty(),
            final(self).spec_policy() == old(self).spec_policy(),
            final(self).spec_height() == 0,
            final(self).spec_leaves() == 0,
    {
        proof {
            assert(keys_of(None::<Box<TreeNode>>) =~= Set::<u32>::empty());
        }
        self.root = None;
    }

    /// Get the height of the tree: 0 when empty, and the length in nodes of
    /// the longest path from the root to a leaf otherwise.
    pub fn height(&self) -> (r: u64)
        ensures
            r == self.spec_height(),
    {
        proof {
            use_type_invariant(self);
        }
        match &self.root {
            Some(n) => n.get_height(),
            None => 0,
        }
    }

    /// Get the number of leaves (nodes with no children) of the tree.
    pub fn leaves(&self) -> (r: u64)
        ensures
            r == self.spec_leaves(),
    {
        proof {
            use_type_invariant(self);
        }
        match &self.root {
            Some(n) => n.get_leaves(),
            None => 0,
        }
    }

    /// Inserts an element into the tree, then rebalances it using the
    /// instructions of the tree's balancing policy.
    ///
    /// Inserting a key the tree already holds changes nothing.
    pub fn insert(&mut self, key: u32)
        ensures
            final(self).spec_keys() == old(self).spec_keys().insert(key),
            final(self).spec_policy() == old(self).spec_policy(),
            old(self).spec_keys().contains(key) ==> *final(self) == *old(self),
            old(self).spec_policy() is Unbalanced ==> crate::unbalanced::plain_inserted(
                old(self).spec_root(),
                key,
                final(self).spec_root(),
            ),
    {
        let policy = self.policy;
        let mut taken = Tree { policy, root: None };
        std::mem::swap(&mut taken, self);
        *self = ops::bst_insert(taken, key);
    }

    /// Removes an element from the tree if it exists, returning the removed
    /// key; the tree is then rebalanced using the instructions of its
    /// balancing policy.
    ///
    /// Deleting a key the tree does not hold returns `None` and leaves the
    /// tree unchanged.
    pub fn delete(&mut self, key: &u32) -> (r: Option<u32>)
        ensures
            final(self).spec_keys() == old(self).spec_keys().remove(*key),
            final(self).spec_policy() == old(self).spec_policy(),
            r == if old(self).spec_keys().contains(*key) {
                Some(*key)
            } else {
                None::<u32>
            },
            !old(self).spec_keys().contains(*key) ==> *final(self) == *old(self),
    {
        let policy = self.policy;
        let mut taken = Tree { policy, root: None };
        std::mem::swap(&mut taken, self);
        let (rest, removed) = ops::bst_delete(taken, key);
        *self = rest;
        removed
    }

    /// Finds if an element exists in the tree.
    pub fn search(&self, key: &u32) -> (r: bool)
        ensures
            r == self.spec_keys().contains(*key),
    {
        ops::bst_search(self, key)
    }

    /// The policy this tree balances itself with.
    pub fn policy(&self) -> (r: BalancePolicy)
        ensures
            r == self.spec_policy(),
    {
        self.policy
    }

    /// The keys of the tree, listed in order.
    pub fn inorder(&self) -> (v: Vec<u32>)
        ensures
            v@ == self.spec_inorder(),
    {
        let mut v = Vec::new();
        ops::collect_inorder(&self.root, &mut v);
        proof {
            assert(v@ =~= self.spec_inorder());
        }
        v
    }

    /// True when the heights of the two subtrees of every node differ by at
    /// most one: the balance the AVL policy maintains.
    pub closed spec fn height_balanced(self) -> bool {
        avl_of(self.root)
    }

    /// True when the tree satisfies the Red-Black invariants: the root is
    /// black, no red node has a red child, and every root-to-empty path
    /// crosses the same number of black nodes.
    pub closed spec fn red_black_valid(self) -> bool {
        rb_of(self.root) && !is_red(self.root)
    }

    /// Checks at run time that every node of the tree is height-balanced.
    pub fn is_height_balanced(&self) -> (r: bool)
        ensures
            r == self.height_balanced(),
    {
        proof {
            use_type_invariant(self);
        }
        crate::avl::avl_holds(&self.root)
    }

    /// Checks at run time that the tree satisfies the Red-Black invariants.
    pub fn is_red_black_valid(&self) -> (r: bool)
        ensures
            r == self.red_black_valid(),
    {
        proof {
            use_type_invariant(self);
        }
        let (ok, _bh) = crate::redblack::rb_holds(&self.root);
        let root_black = match &self.root {
            None => true,
            Some(n) => {
                match n.get_balance() {
                    crate::tree::inspect::BalanceState::RedBlack(rb) => matches!(
                        rb.color,
                        crate::redblack::RBColor::Black,
                    ),
                    _ => true,
                }
            },
        };
        ok && root_black
    }

    /// Law: after any sequence of operations, an in-order traversal of the
    /// tree yields a strictly increasing sequence of exactly the tree's
    /// keys.
    pub proof fn lemma_inorder_strictly_increasing(t: &Tree)
        requires
            t.wf(),
        ensures
            strictly_increasing(t.spec_inorder()),
            forall|k: u32| #[trigger]
                t.spec_keys().contains(k) <==> t.spec_inorder().contains(k),
    {
        lemma_bst_inorder_sorted(t.root);
        lemma_keys_in_inorder(t.root);
        lemma_inorder_keys(t.root);
        assert forall|k: u32| #[trigger] t.spec_keys().contains(k) <==> t.spec_inorder().contains(
            k,
        ) by {
            if t.spec_inorder().contains(k) {
                let i = choose|i: int|
                    0 <= i < t.spec_inorder().len() && t.spec_inorder()[i] == k;
                assert(keys_of(t.root).contains(t.spec_inorder()[i]));
            }
        }
    }

    /// Law: a tree governed by the AVL policy is height-balanced after any
    /// sequence of operations.
    pub proof fn lemma_avl_invariant(t: &Tree)
        requires
            t.wf(),
            t.spec_policy() is Avl,
        ensures
            t.height_balanced(),
    {
    }

    /// Law: a tree governed by the Red-Black policy satisfies the Red-Black
    /// invariants after any sequence of operations.
    pub proof fn lemma_red_black_invariant(t: &Tree)
        requires
            t.wf(),
            t.spec_policy() is RedBlack,
        ensures
            t.red_black_valid(),
    {
    }

    /// Law: an AVL tree of height `h` has at least `fib(h)` leaves. Since
    /// the Fibonacci numbers grow exponentially, this bounds the height
    /// logarithmically in the leaf count: the discrete form of the familiar
    /// `1.44 * log2` AVL height bound.
    pub proof fn lemma_avl_height_bound(t: &Tree)
        requires
            t.wf(),
            t.spec_policy() is Avl,
        ensures
            fib(t.spec_height()) <= t.spec_leaves(),
    {
        lemma_avl_leaves_bound(t.root);
    }

    /// Law: inserting a key and then deleting it yields exactly the key set
    /// the deletion alone would yield. Together with the contracts of
    /// `insert` and `delete` (which state how each call changes the key
    /// set), this is the round trip over the tree's view; every operation
    /// keeps the active policy's invariant as the tree's invariant.
    pub proof fn lemma_insert_delete_round_trip(s: Set<u32>, k: u32)
        ensures
            s.insert(k).remove(k) == s.remove(k),
    {
        assert(s.insert(k).remove(k) =~= s.remove(k));
    }

    /// Well-formedness of the tree: binary-search ordering, correct cached
    /// height and leaf counts, one policy-appropriate balance state per node,
    /// and the invariant of the active balancing policy.
    #[verifier::type_invariant]
    pub closed spec fn wf(self) -> bool {
        &&& bst_of(self.root)
        &&& caches_of(self.root)
        &&& state_of(self.policy, self.root)
        &&& (self.policy is Avl ==> avl_of(self.root))
        &&& (self.policy is RedBlack ==> rb_of(self.root) && !is_red(self.root))
    }
}

} // verus!
