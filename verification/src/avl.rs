//! The AVL balancing policy: keeps sibling subtree heights within one of
//! each other by rotating at the lowest unbalanced ancestor.

use vstd::prelude::*;

use crate::tree::inspect::NodeOffset;
use crate::tree::node::{
    avl_of, bst_of, caches_of, get_link, height_of, keys_of, leaves_of, lemma_node_bridge,
    lemma_subtree_bounds, node_avl, node_caches, state_of, TreeNode,
};
use crate::tree::ops::{bst_full_rotate, double_rotate_frame, full_rotate_frame, rotate_frame};
use crate::tree::BalancePolicy;
use crate::tree::TreePath;

verus! {

/// Balance state of the AVL policy. AVL balancing needs nothing beyond the
/// height caches the tree already keeps, so the state carries no data.
#[derive(Clone, Copy, Debug, PartialEq, Eq, Structural)]
pub struct AVLBalance {}

impl AVLBalance {
    /// Balance state for a freshly attached non-root node.
    pub fn new() -> (r: AVLBalance)
        ensures
            r == (AVLBalance {}),
    {
        AVLBalance {}
    }

    /// Balance state for a node created as the whole tree.
    pub fn new_root() -> (r: AVLBalance)
        ensures
            r == (AVLBalance {}),
    {
        AVLBalance {}
    }

    /// Called when a node moves into the root position; AVL keeps no
    /// root-only state, so nothing changes.
    pub fn adjust_root(&mut self)
        ensures
            *final(self) == *old(self),
    {
    }
}

/// The Fibonacci numbers, the yardstick for how bushy an AVL tree must be.
pub open spec fn fib(n: nat) -> nat
    decreases n,
{
    if n == 0 {
        0
    } else if n == 1 {
        1
    } else {
        fib((n - 1) as nat) + fib((n - 2) as nat)
    }
}

/// Fibonacci numbers never decrease.
pub proof fn lemma_fib_mono(a: nat, b: nat)
    requires
        a <= b,
    ensures
        fib(a) <= fib(b),
    decreases b,
{
    if a < b && b >= 2 {
        lemma_fib_mono(a, (b - 1) as nat);
    }
}

/// A height-balanced subtree of height `h` has at least `fib(h)` leaves:
/// the discrete form of the logarithmic AVL height bound, since the
/// Fibonacci numbers grow exponentially.
pub proof fn lemma_avl_leaves_bound(t: Option<Box<TreeNode>>)
    requires
        avl_of(t),
    ensures
        fib(height_of(t)) <= leaves_of(t),
    decreases t,
{
    match t {
        None => {},
        Some(n) => {
            lemma_avl_leaves_bound(n.left);
            lemma_avl_leaves_bound(n.right);
            let h = height_of(t);
            if n.left is None && n.right is None {
                assert(h == 1);
            } else {
                let hl = height_of(n.left);
                let hr = height_of(n.right);
                if hl >= hr {
                    lemma_fib_mono((h - 1) as nat, hl);
                    lemma_fib_mono((h - 2) as nat, hr);
                } else {
                    lemma_fib_mono((h - 1) as nat, hr);
                    lemma_fib_mono((h - 2) as nat, hl);
                }
            }
        },
    }
}

/// Checks at run time that every node of a subtree is height-balanced.
pub fn avl_holds(t: &Option<Box<TreeNode>>) -> (r: bool)
    requires
        bst_of(*t),
        caches_of(*t),
    ensures
        r == avl_of(*t),
    decreases t,
{
    match t {
        None => true,
        Some(n) => {
            proof {
                lemma_node_bridge(*n);
                lemma_subtree_bounds(n.left);
                lemma_subtree_bounds(n.right);
            }
            let hl = match &n.left {
                Some(c) => c.get_height(),
                None => 0,
            };
            let hr = match &n.right {
                Some(c) => c.get_height(),
                None => 0,
            };
            proof {
                assert(hl == height_of(n.left));
                assert(hr == height_of(n.right));
            }
            if hl > hr + 1 || hr > hl + 1 {
                return false;
            }
            let lok = avl_holds(&n.left);
            let rok = avl_holds(&n.right);
            lok && rok
        },
    }
}

/// Decides whether a subtree has grown (or been left) too tall next to its
/// sibling: true when its height exceeds the sibling's by more than one.
pub fn avl_check(parent: &Option<Box<TreeNode>>, uncle: &Option<Box<TreeNode>>) -> (r: bool)
    requires
        bst_of(*parent),
        bst_of(*uncle),
        caches_of(*parent),
        caches_of(*uncle),
    ensures
        r == (height_of(*parent) > height_of(*uncle) + 1),
{
    proof {
        lemma_subtree_bounds(*parent);
        lemma_subtree_bounds(*uncle);
    }
    let ph = match parent {
        Some(n) => n.get_height(),
        None => 0,
    };
    let uh = match uncle {
        Some(n) => n.get_height(),
        None => 0,
    };
    ph > uh + 1
}

/// A non-empty height means a non-empty link.
proof fn lemma_tall_is_some(t: Option<Box<TreeNode>>)
    requires
        height_of(t) > 0,
    ensures
        t is Some,
{
    if t is None {
        assert(height_of(t) == 0);
    }
}

/// AVL rebalance step after an insertion, at one ancestor of the new node.
///
/// `path` is the pair (side of this node the insertion went down, side the
/// insertion continued at the child). When the insertion side has become
/// two levels taller than its sibling, one rotation over `path` restores
/// balance and returns the subtree to its height before the insertion, so
/// the walk can stop; otherwise nothing changes and the walk continues at
/// the parent.
pub fn rebalance_insert(node: Box<TreeNode>, path: (TreePath, TreePath)) -> (r: (
    Box<TreeNode>,
    NodeOffset,
))
    requires
        bst_of(Some(node)),
        caches_of(Some(node)),
        avl_of(get_link(*node, path.0)),
        avl_of(get_link(*node, path.0.reflect())),
        height_of(get_link(*node, path.0)) <= height_of(get_link(*node, path.0.reflect())) + 2,
        height_of(get_link(*node, path.0.reflect())) <= height_of(get_link(*node, path.0)) + 1,
        height_of(get_link(*node, path.0)) == height_of(get_link(*node, path.0.reflect())) + 2
            ==> (get_link(*node, path.0) is Some && height_of(
            get_link(*get_link(*node, path.0).unwrap(), path.1),
        ) == height_of(get_link(*get_link(*node, path.0).unwrap(), path.1.reflect())) + 1),
    ensures
        bst_of(Some(r.0)),
        caches_of(Some(r.0)),
        keys_of(Some(r.0)) == keys_of(Some(node)),
        state_of(BalancePolicy::Avl, Some(node)) ==> state_of(BalancePolicy::Avl, Some(r.0)),
        avl_of(Some(r.0)),
        r.1 is Root || r.1 is Parent,
        r.1 is Parent ==> r.0 == node && height_of(Some(r.0)) == height_of(Some(node)),
        r.1 is Root ==> height_of(Some(r.0)) + 1 == height_of(Some(node)) && height_of(
            get_link(*node, path.0),
        ) == height_of(get_link(*node, path.0.reflect())) + 2,
        // Exactly one rotation over `path` fires, and only on the
        // two-level imbalance.
        height_of(get_link(*node, path.0)) == height_of(get_link(*node, path.0.reflect())) + 2
            ==> r.1 is Root && full_rotate_frame(*node, path.0, path.1, *r.0),
        height_of(get_link(*node, path.0)) != height_of(get_link(*node, path.0.reflect())) + 2
            ==> r.1 is Parent,
{
    let d = path.0;
    let xd = path.1;
    let ghost r0 = *node;
    let fire = avl_check(node.get_child(d), node.get_child(d.reflect()));
    if fire {
        proof {
            lemma_tall_is_some(get_link(r0, d));
            lemma_node_bridge(get_link(r0, d).unwrap());
            let c0 = *get_link(r0, d).unwrap();
            if xd != d {
                lemma_tall_is_some(get_link(c0, xd));
            }
        }
        let res = bst_full_rotate(node, d, xd);
        proof {
            let c0b = get_link(r0, d).unwrap();
            let c0 = *c0b;
            let hu = height_of(get_link(r0, d.reflect()));
            lemma_node_bridge(res);
            if xd == d {
                assert(rotate_frame(r0, d, *res));
                let p2b = get_link(*res, d.reflect()).unwrap();
                lemma_node_bridge(p2b);
                assert(height_of(get_link(c0, d)) == hu + 1);
                assert(height_of(Some(p2b)) == hu + 1);
                assert(node_avl(*p2b));
                assert(node_avl(*res));
            } else {
                assert(double_rotate_frame(r0, d, *res));
                let x0b = get_link(c0, d.reflect()).unwrap();
                let x0 = *x0b;
                lemma_node_bridge(x0b);
                let cnb = get_link(*res, d).unwrap();
                let rnb = get_link(*res, d.reflect()).unwrap();
                lemma_node_bridge(cnb);
                lemma_node_bridge(rnb);
                assert(height_of(get_link(c0, d.reflect())) == hu + 1);
                assert(height_of(get_link(c0, d)) == hu);
                assert(node_avl(x0));
                assert(height_of(Some(cnb)) == hu + 1);
                assert(height_of(Some(rnb)) == hu + 1);
                assert(node_avl(*cnb));
                assert(node_avl(*rnb));
                assert(node_avl(*res));
            }
        }
        (res, NodeOffset::Root)
    } else {
        (node, NodeOffset::Parent)
    }
}

/// The inner path the delete-side rebalance rotates over, within the tall
/// side of `node` opposite the deletion side `upath`: the in-line
/// grandchild when it is at least as tall as the elbow grandchild (which
/// avoids a needless double rotation), the elbow grandchild otherwise.
pub open spec fn delete_rotation_path(node: TreeNode, upath: TreePath) -> TreePath {
    let c = get_link(node, upath.reflect()).unwrap();
    if height_of(get_link(*c, upath.reflect())) >= height_of(get_link(*c, upath)) {
        upath.reflect()
    } else {
        upath
    }
}

/// AVL rebalance step after a deletion, at one ancestor of the removed
/// node.
///
/// `upath` is the side of this node the removal happened on. When the
/// opposite side is now two levels taller, the step rotates it up, picking
/// the in-line grandchild when it is at least as tall as the elbow
/// grandchild (which avoids a needless double rotation). Unlike insertion,
/// one rotation may leave the subtree shorter, so the walk always continues
/// at the parent.
pub fn rebalance_delete(node: Box<TreeNode>, upath: TreePath) -> (r: (Box<TreeNode>, NodeOffset))
    requires
        bst_of(Some(node)),
        caches_of(Some(node)),
        avl_of(get_link(*node, upath)),
        avl_of(get_link(*node, upath.reflect())),
        height_of(get_link(*node, upath.reflect())) <= height_of(get_link(*node, upath)) + 2,
        height_of(get_link(*node, upath)) <= height_of(get_link(*node, upath.reflect())) + 1,
    ensures
        bst_of(Some(r.0)),
        caches_of(Some(r.0)),
        keys_of(Some(r.0)) == keys_of(Some(node)),
        state_of(BalancePolicy::Avl, Some(node)) ==> state_of(BalancePolicy::Avl, Some(r.0)),
        avl_of(Some(r.0)),
        height_of(Some(r.0)) <= height_of(Some(node)),
        height_of(Some(node)) <= height_of(Some(r.0)) + 1,
        height_of(get_link(*node, upath.reflect())) <= height_of(get_link(*node, upath)) + 1
            ==> r.0 == node,
        // The two-level imbalance is repaired by exactly one rotation over
        // the tall side and its preferred grandchild.
        height_of(get_link(*node, upath.reflect())) == height_of(get_link(*node, upath)) + 2
            ==> full_rotate_frame(
            *node,
            upath.reflect(),
            delete_rotation_path(*node, upath),
            *r.0,
        ),
        r.1 is Parent,
{
    let d = upath.reflect();
    let ghost r0 = *node;
    let fire = avl_check(node.get_child(d), node.get_child(upath));
    if fire {
        proof {
            lemma_tall_is_some(get_link(r0, d));
            lemma_node_bridge(get_link(r0, d).unwrap());
        }
        // Pick the rotation's inner path: prefer the in-line grandchild to
        // avoid an unnecessary extra rotation.
        let xd = {
            let c = node.get_child(d).as_ref().unwrap();
            let ih = match c.get_child(d) {
                Some(x) => x.get_height(),
                None => 0,
            };
            let eh = match c.get_child(d.reflect()) {
                Some(x) => x.get_height(),
                None => 0,
            };
            if ih >= eh {
                d
            } else {
                d.reflect()
            }
        };
        proof {
            let c0 = *get_link(r0, d).unwrap();
            assert(xd == delete_rotation_path(r0, upath));
            if xd != d {
                lemma_tall_is_some(get_link(c0, xd));
            }
        }
        let res = bst_full_rotate(node, d, xd);
        proof {
            let c0b = get_link(r0, d).unwrap();
            let c0 = *c0b;
            let hu = height_of(get_link(r0, upath));
            lemma_node_bridge(res);
            if xd == d {
                assert(rotate_frame(r0, d, *res));
                let p2b = get_link(*res, d.reflect()).unwrap();
                lemma_node_bridge(p2b);
                assert(height_of(get_link(c0, d)) == hu + 1);
                assert(node_avl(*p2b));
                assert(node_avl(*res));
            } else {
                assert(double_rotate_frame(r0, d, *res));
                let x0b = get_link(c0, d.reflect()).unwrap();
                lemma_node_bridge(x0b);
                let cnb = get_link(*res, d).unwrap();
                let rnb = get_link(*res, d.reflect()).unwrap();
                lemma_node_bridge(cnb);
                lemma_node_bridge(rnb);
                assert(height_of(get_link(c0, d.reflect())) == hu + 1);
                assert(height_of(get_link(c0, d)) == hu);
                assert(node_avl(*x0b));
                assert(node_avl(*cnb));
                assert(node_avl(*rnb));
                assert(node_avl(*res));
            }
        }
        (res, NodeOffset::Parent)
    } else {
        (node, NodeOffset::Parent)
    }
}

} // verus!
