//! The node of a binary tree, its cached metadata, and the mathematical
//! model (key sets, heights, leaf counts, ordering) that the contracts of
//! the tree operations are stated over.

use vstd::prelude::*;

use crate::tree::inspect::BalanceState;
use crate::tree::BalancePolicy;
use crate::tree::TreePath;

verus! {

/// A node in a binary tree.
///
/// Holds a key, a cached height and leaf count for the subtree it roots,
/// owning links to its children, and the balance state owned by the active
/// balancing policy.
#[derive(Debug)]
pub struct TreeNode {
    /// Key for the node.
    pub key: u32,
    /// Height of the tree that is rooted by this node.
    pub height: u64,
    /// Number of leaves of the tree that is rooted by this node.
    pub leaves: u64,
    /// Balance state used by the active policy.
    pub balance: BalanceState,
    /// Owning link to the left child.
    pub left: Option<Box<TreeNode>>,
    /// Owning link to the right child.
    pub right: Option<Box<TreeNode>>,
}

/// The child link of `n` along `d`.
pub open spec fn get_link(n: TreeNode, d: TreePath) -> Option<Box<TreeNode>> {
    match d {
        TreePath::Left => n.left,
        TreePath::Right => n.right,
    }
}

/// The direction a search for `k` takes at a node with key `pivot`
/// (left on smaller, right otherwise).
pub open spec fn dir_of(k: u32, pivot: u32) -> TreePath {
    if k < pivot {
        TreePath::Left
    } else {
        TreePath::Right
    }
}

/// The set of keys stored in a subtree.
pub open spec fn keys_of(t: Option<Box<TreeNode>>) -> Set<u32>
    decreases t,
{
    match t {
        None => Set::empty(),
        Some(n) => keys_of(n.left).union(keys_of(n.right)).insert(n.key),
    }
}

/// The number of nodes of a subtree.
pub open spec fn size_of(t: Option<Box<TreeNode>>) -> nat
    decreases t,
{
    match t {
        None => 0,
        Some(n) => 1 + size_of(n.left) + size_of(n.right),
    }
}

/// The height of a subtree: 0 when empty, 1 for a single leaf.
pub open spec fn height_of(t: Option<Box<TreeNode>>) -> nat
    decreases t,
{
    match t {
        None => 0,
        Some(n) => 1 + if height_of(n.left) >= height_of(n.right) {
            height_of(n.left)
        } else {
            height_of(n.right)
        },
    }
}

/// The number of leaf nodes of a subtree.
pub open spec fn leaves_of(t: Option<Box<TreeNode>>) -> nat
    decreases t,
{
    match t {
        None => 0,
        Some(n) => if n.left is None && n.right is None {
            1
        } else {
            leaves_of(n.left) + leaves_of(n.right)
        },
    }
}

/// The keys of a subtree listed in order.
pub open spec fn inorder_of(t: Option<Box<TreeNode>>) -> Seq<u32>
    decreases t,
{
    match t {
        None => Seq::empty(),
        Some(n) => inorder_of(n.left) + seq![n.key] + inorder_of(n.right),
    }
}

/// Binary-search ordering: at every node, keys to the left are smaller and
/// keys to the right are greater than the node's key.
pub open spec fn bst_of(t: Option<Box<TreeNode>>) -> bool
    decreases t,
{
    match t {
        None => true,
        Some(n) => {
            &&& bst_of(n.left)
            &&& bst_of(n.right)
            &&& (forall|k: u32| keys_of(n.left).contains(k) ==> k < n.key)
            &&& (forall|k: u32| keys_of(n.right).contains(k) ==> k > n.key)
        },
    }
}

/// Cache correctness: at every node the stored height and leaf count equal
/// the true height and leaf count of the subtree it roots.
pub open spec fn caches_of(t: Option<Box<TreeNode>>) -> bool
    decreases t,
{
    match t {
        None => true,
        Some(n) => {
            &&& caches_of(n.left)
            &&& caches_of(n.right)
            &&& n.height == height_of(t)
            &&& n.leaves == leaves_of(t)
        },
    }
}

/// Every node of the subtree carries a balance state of the kind the given
/// policy owns.
pub open spec fn state_of(policy: BalancePolicy, t: Option<Box<TreeNode>>) -> bool
    decreases t,
{
    match t {
        None => true,
        Some(n) => {
            &&& state_of(policy, n.left)
            &&& state_of(policy, n.right)
            &&& n.balance.matches(policy)
        },
    }
}

/// AVL balance: at every node the heights of the two subtrees differ by at
/// most one.
pub open spec fn avl_of(t: Option<Box<TreeNode>>) -> bool
    decreases t,
{
    match t {
        None => true,
        Some(n) => {
            &&& avl_of(n.left)
            &&& avl_of(n.right)
            &&& height_of(n.left) <= height_of(n.right) + 1
            &&& height_of(n.right) <= height_of(n.left) + 1
        },
    }
}

/// The key set of the subtree a single node roots, derived from its
/// current children.
pub open spec fn node_keys(n: TreeNode) -> Set<u32> {
    keys_of(n.left).union(keys_of(n.right)).insert(n.key)
}

/// Binary-search ordering of the subtree a single node roots.
pub open spec fn node_bst(n: TreeNode) -> bool {
    &&& bst_of(n.left)
    &&& bst_of(n.right)
    &&& (forall|k: u32| keys_of(n.left).contains(k) ==> k < n.key)
    &&& (forall|k: u32| keys_of(n.right).contains(k) ==> k > n.key)
}

/// Policy-matching balance states of the subtree a single node roots.
pub open spec fn node_state(policy: BalancePolicy, n: TreeNode) -> bool {
    &&& state_of(policy, n.left)
    &&& state_of(policy, n.right)
    &&& n.balance.matches(policy)
}

/// AVL balance of the subtree a single node roots.
pub open spec fn node_avl(n: TreeNode) -> bool {
    &&& avl_of(n.left)
    &&& avl_of(n.right)
    &&& height_of(n.left) <= height_of(n.right) + 1
    &&& height_of(n.right) <= height_of(n.left) + 1
}

/// The subtree of `n` on the side where `k` lies is exactly one level
/// taller than its sibling: the shape an insertion leaves behind when it
/// has made a node grow.
pub open spec fn lean_toward(n: TreeNode, k: u32) -> bool {
    height_of(get_link(n, dir_of(k, n.key))) == height_of(
        get_link(n, dir_of(k, n.key).reflect()),
    ) + 1
}

/// The height a node's cache must hold, derived from its current children.
pub open spec fn node_height(n: TreeNode) -> nat {
    1 + if height_of(n.left) >= height_of(n.right) {
        height_of(n.left)
    } else {
        height_of(n.right)
    }
}

/// The leaf count a node's cache must hold, derived from its current
/// children.
pub open spec fn node_leaves(n: TreeNode) -> nat {
    if n.left is None && n.right is None {
        1
    } else {
        leaves_of(n.left) + leaves_of(n.right)
    }
}

/// Cache correctness of a single node against its current children.
pub open spec fn node_caches(n: TreeNode) -> bool {
    &&& caches_of(n.left)
    &&& caches_of(n.right)
    &&& n.height == node_height(n)
    &&& n.leaves == node_leaves(n)
}

/// The subtree predicates applied to a non-empty link agree with their
/// node-level forms applied to the link's node.
pub proof fn lemma_node_bridge(b: Box<TreeNode>)
    ensures
        keys_of(Some(b)) == node_keys(*b),
        bst_of(Some(b)) == node_bst(*b),
        caches_of(Some(b)) == node_caches(*b),
        height_of(Some(b)) == node_height(*b),
        leaves_of(Some(b)) == node_leaves(*b),
        avl_of(Some(b)) == node_avl(*b),
        forall|policy: BalancePolicy| #[trigger]
            state_of(policy, Some(b)) == node_state(policy, *b),
{
}

/// The balance state of the node of `t` that holds `k`, following the
/// search path.
pub open spec fn balance_at(t: Option<Box<TreeNode>>, k: u32) -> BalanceState
    decreases t,
{
    match t {
        None => arbitrary(),
        Some(n) => if k == n.key {
            n.balance
        } else if k < n.key {
            balance_at(n.left, k)
        } else {
            balance_at(n.right, k)
        },
    }
}

/// A sequence of keys in strictly increasing order.
pub open spec fn strictly_increasing(s: Seq<u32>) -> bool {
    forall|i: int, j: int| 0 <= i < j < s.len() ==> s[i] < s[j]
}

/// The in-order listing of a subtree has one entry per node, and every
/// entry is a key of the subtree.
pub proof fn lemma_inorder_keys(t: Option<Box<TreeNode>>)
    ensures
        inorder_of(t).len() == size_of(t),
        forall|i: int|
            0 <= i < inorder_of(t).len() ==> #[trigger] keys_of(t).contains(inorder_of(t)[i]),
    decreases t,
{
    match t {
        None => {},
        Some(n) => {
            lemma_inorder_keys(n.left);
            lemma_inorder_keys(n.right);
            let s = inorder_of(t);
            let ls = inorder_of(n.left);
            let rs = inorder_of(n.right);
            assert forall|i: int| 0 <= i < s.len() implies #[trigger] keys_of(t).contains(
                s[i],
            ) by {
                if i < ls.len() {
                    assert(s[i] == ls[i]);
                    assert(keys_of(n.left).contains(ls[i]));
                } else if i == ls.len() {
                    assert(s[i] == n.key);
                } else {
                    assert(s[i] == rs[i - ls.len() - 1]);
                    assert(keys_of(n.right).contains(rs[i - ls.len() - 1]));
                }
            }
        },
    }
}

/// Every key of a subtree appears in its in-order listing.
pub proof fn lemma_keys_in_inorder(t: Option<Box<TreeNode>>)
    ensures
        forall|k: u32| keys_of(t).contains(k) ==> #[trigger] inorder_of(t).contains(k),
    decreases t,
{
    match t {
        None => {},
        Some(n) => {
            lemma_keys_in_inorder(n.left);
            lemma_keys_in_inorder(n.right);
            let s = inorder_of(t);
            let ls = inorder_of(n.left);
            let rs = inorder_of(n.right);
            assert forall|k: u32| keys_of(t).contains(k) implies #[trigger] s.contains(k) by {
                if keys_of(n.left).contains(k) {
                    assert(ls.contains(k));
                    let i = choose|i: int| 0 <= i < ls.len() && ls[i] == k;
                    assert(s[i] == k);
                } else if keys_of(n.right).contains(k) {
                    assert(rs.contains(k));
                    let i = choose|i: int| 0 <= i < rs.len() && rs[i] == k;
                    assert(s[ls.len() + 1 + i] == k);
                } else {
                    assert(s[ls.len() as int] == k);
                }
            }
        },
    }
}

/// In a binary search tree the in-order key listing is strictly increasing.
pub proof fn lemma_bst_inorder_sorted(t: Option<Box<TreeNode>>)
    requires
        bst_of(t),
    ensures
        strictly_increasing(inorder_of(t)),
    decreases t,
{
    match t {
        None => {},
        Some(n) => {
            lemma_bst_inorder_sorted(n.left);
            lemma_bst_inorder_sorted(n.right);
            lemma_inorder_keys(n.left);
            lemma_inorder_keys(n.right);
            let s = inorder_of(t);
            let ls = inorder_of(n.left);
            let rs = inorder_of(n.right);
            assert forall|i: int, j: int| 0 <= i < j < s.len() implies s[i] < s[j] by {
                if i < ls.len() {
                    assert(s[i] == ls[i]);
                    assert(keys_of(n.left).contains(ls[i]));
                } else if i == ls.len() {
                    assert(s[i] == n.key);
                } else {
                    assert(s[i] == rs[i - ls.len() - 1]);
                    assert(keys_of(n.right).contains(rs[i - ls.len() - 1]));
                }
                if j < ls.len() {
                    assert(s[j] == ls[j]);
                    assert(keys_of(n.left).contains(ls[j]));
                } else if j == ls.len() {
                    assert(s[j] == n.key);
                } else {
                    assert(s[j] == rs[j - ls.len() - 1]);
                    assert(keys_of(n.right).contains(rs[j - ls.len() - 1]));
                }
            }
        },
    }
}

/// Every key of a subtree lies in the closed interval `[lo, hi]`.
pub open spec fn keys_within(t: Option<Box<TreeNode>>, lo: int, hi: int) -> bool {
    forall|k: u32| keys_of(t).contains(k) ==> lo <= k <= hi
}

/// In a binary search tree over `u32` keys whose keys lie in `[lo, hi]`,
/// the node count is bounded by the width of the interval, and height and
/// leaf count are bounded by the node count.
pub proof fn lemma_size_within(t: Option<Box<TreeNode>>, lo: int, hi: int)
    requires
        bst_of(t),
        keys_within(t, lo, hi),
        lo <= hi + 1,
    ensures
        size_of(t) <= hi + 1 - lo,
    decreases t,
{
    match t {
        None => {},
        Some(n) => {
            assert(keys_of(t).contains(n.key));
            assert forall|k: u32| keys_of(n.left).contains(k) implies lo <= k <= n.key - 1 by {
                assert(keys_of(t).contains(k));
            }
            assert forall|k: u32| keys_of(n.right).contains(k) implies n.key + 1 <= k <= hi by {
                assert(keys_of(t).contains(k));
            }
            lemma_size_within(n.left, lo, n.key - 1);
            lemma_size_within(n.right, n.key + 1, hi);
        },
    }
}

/// Height and leaf count never exceed the node count.
pub proof fn lemma_measures_le_size(t: Option<Box<TreeNode>>)
    ensures
        height_of(t) <= size_of(t),
        leaves_of(t) <= size_of(t),
        t is Some ==> 1 <= leaves_of(t),
        t is Some ==> 1 <= height_of(t),
    decreases t,
{
    match t {
        None => {},
        Some(n) => {
            lemma_measures_le_size(n.left);
            lemma_measures_le_size(n.right);
        },
    }
}

/// Bounds used to rule out arithmetic overflow on cached counters: a binary
/// search tree over `u32` keys has at most `2^32` nodes.
pub proof fn lemma_subtree_bounds(t: Option<Box<TreeNode>>)
    requires
        bst_of(t),
    ensures
        size_of(t) <= 0x1_0000_0000,
        height_of(t) <= size_of(t),
        leaves_of(t) <= size_of(t),
        t is Some ==> 1 <= leaves_of(t),
        t is Some ==> 1 <= height_of(t),
{
    lemma_size_within(t, 0, u32::MAX as int);
    lemma_measures_le_size(t);
}

impl TreeNode {
    /// Constructs a parentless node that owns the given key, with the
    /// balance state the policy assigns to a root node.
    pub fn new_with(policy: BalancePolicy, key: u32) -> (r: TreeNode)
        ensures
            r == (TreeNode {
                key,
                height: 1,
                leaves: 1,
                balance: crate::tree::inspect::spec_state_new_root(policy),
                left: None,
                right: None,
            }),
    {
        TreeNode {
            key,
            height: 1,
            leaves: 1,
            balance: crate::tree::inspect::state_new_root(policy),
            left: None,
            right: None,
        }
    }

    /// Constructs a node that owns the given key and will hang beneath a
    /// parent, with the balance state the policy assigns to a non-root node.
    pub fn new_with_parent(policy: BalancePolicy, key: u32) -> (r: TreeNode)
        ensures
            r == (TreeNode {
                key,
                height: 1,
                leaves: 1,
                balance: crate::tree::inspect::spec_state_new(policy),
                left: None,
                right: None,
            }),
    {
        TreeNode {
            key,
            height: 1,
            leaves: 1,
            balance: crate::tree::inspect::state_new(policy),
            left: None,
            right: None,
        }
    }

    /// Updates the node's cached height and leaf count from its current
    /// children. Every structural change re-derives the caches bottom-up
    /// through this function.
    pub fn update(&mut self)
        requires
            bst_of(old(self).left),
            bst_of(old(self).right),
            caches_of(old(self).left),
            caches_of(old(self).right),
        ensures
            *final(self) == (TreeNode {
                height: final(self).height,
                leaves: final(self).leaves,
                ..*old(self)
            }),
            node_caches(*final(self)),
    {
        proof {
            lemma_subtree_bounds(self.left);
            lemma_subtree_bounds(self.right);
        }
        let hl = match &self.left {
            Some(n) => n.height,
            None => 0,
        };
        let hr = match &self.right {
            Some(n) => n.height,
            None => 0,
        };
        let ll = match &self.left {
            Some(n) => n.leaves,
            None => 0,
        };
        let lr = match &self.right {
            Some(n) => n.leaves,
            None => 0,
        };
        self.height = 1 + if hl >= hr {
            hl
        } else {
            hr
        };
        self.leaves = if ll + lr >= 1 {
            ll + lr
        } else {
            1
        };
    }

    /// Returns a reference to the child link at the given path.
    pub fn get_child(&self, pos: TreePath) -> (r: &Option<Box<TreeNode>>)
        ensures
            *r == get_link(*self, pos),
    {
        match pos {
            TreePath::Left => &self.left,
            TreePath::Right => &self.right,
        }
    }

    /// Returns a reference to the balance state owned by the node.
    pub fn get_balance(&self) -> (r: &BalanceState)
        ensures
            *r == self.balance,
    {
        &self.balance
    }

    /// Returns the cached height of the subtree rooted by this node.
    pub fn get_height(&self) -> (r: u64)
        ensures
            r == self.height,
    {
        self.height
    }

    /// Returns the cached number of leaves of the subtree rooted by this node.
    pub fn get_leaves(&self) -> (r: u64)
        ensures
            r == self.leaves,
    {
        self.leaves
    }

    /// Returns the path to take when searching for `key` below this node,
    /// or `None` when `key` is this node's key.
    pub fn search(&self, key: &u32) -> (r: Option<TreePath>)
        ensures
            r == if *key == self.key {
                None::<TreePath>
            } else {
                Some(dir_of(*key, self.key))
            },
    {
        if *key == self.key {
            None
        } else if *key < self.key {
            Some(TreePath::Left)
        } else {
            Some(TreePath::Right)
        }
    }

    /// Detaches and returns the child link at the given path.
    pub fn prune(&mut self, pos: TreePath) -> (r: Option<Box<TreeNode>>)
        ensures
            r == get_link(*old(self), pos),
            get_link(*final(self), pos) is None,
            get_link(*final(self), pos.reflect()) == get_link(*old(self), pos.reflect()),
            *final(self) == (TreeNode {
                left: final(self).left,
                right: final(self).right,
                ..*old(self)
            }),
    {
        match pos {
            TreePath::Left => self.left.take(),
            TreePath::Right => self.right.take(),
        }
    }

    /// Replaces the child link at the given path.
    pub fn set_child(&mut self, pos: TreePath, child: Option<Box<TreeNode>>)
        ensures
            get_link(*final(self), pos) == child,
            get_link(*final(self), pos.reflect()) == get_link(*old(self), pos.reflect()),
            *final(self) == (TreeNode {
                left: final(self).left,
                right: final(self).right,
                ..*old(self)
            }),
    {
        match pos {
            TreePath::Left => {
                self.left = child;
            },
            TreePath::Right => {
                self.right = child;
            },
        }
    }

    /// Returns the key and balance state of this node, consuming it.
    pub fn pop(self) -> (r: (u32, BalanceState))
        ensures
            r.0 == self.key,
            r.1 == self.balance,
    {
        (self.key, self.balance)
    }

    /// Replaces this node's key, returning the old key.
    ///
    /// The caller must hand in a key that respects the ordering against both
    /// children; a key that would break local ordering is a structural bug
    /// and is excluded by precondition.
    pub fn replace_key(&mut self, key: u32) -> (r: u32)
        requires
            forall|k: u32| keys_of(old(self).left).contains(k) ==> k < key,
            forall|k: u32| keys_of(old(self).right).contains(k) ==> k > key,
        ensures
            r == old(self).key,
            *final(self) == (TreeNode { key, ..*old(self) }),
    {
        let old_key = self.key;
        self.key = key;
        old_key
    }

    /// Adjusts the balance state when this node moves into the root
    /// position, letting the policy repair root-only invariants.
    pub fn mark_root(&mut self)
        ensures
            *final(self) == (TreeNode {
                balance: crate::tree::inspect::spec_adjust_root(old(self).balance),
                ..*old(self)
            }),
    {
        crate::tree::inspect::state_adjust_root(&mut self.balance);
    }
}

} // verus!
