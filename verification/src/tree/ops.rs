//! The structural engine: search, insert, and delete traversals with
//! bottom-up rebalancing, the rotation primitive, and node removal.

use vstd::prelude::*;

use crate::redblack::{bh_of, is_red, lemma_rb_bridge, rb_of, red_node, RBColor, RedBlackBalance};
use crate::tree::inspect::{BalanceState, NodeOffset};
use crate::tree::node::{
    avl_of, bst_of, caches_of, dir_of, get_link, height_of, keys_of, lean_toward,
    lemma_node_bridge, node_bst, node_caches, node_keys, node_state, state_of, TreeNode,
};
use crate::tree::BalancePolicy;
use crate::tree::Tree;
use crate::tree::TreePath;

verus! {

/// Relates the subtree rooted at `x` to the subtree rooted at `p0` after a
/// single rotation along `d`: the child of `p0` along `d` takes `p0`'s
/// place, `p0` becomes its child on the opposite side, and the displaced
/// grandchild moves under `p0`.
pub open spec fn rotate_frame(p0: TreeNode, d: TreePath, x: TreeNode) -> bool {
    get_link(p0, d) is Some && {
        let x0 = get_link(p0, d).unwrap();
        &&& x.key == x0.key
        &&& x.balance == x0.balance
        &&& get_link(x, d) == get_link(*x0, d)
        &&& get_link(x, d.reflect()) is Some
        &&& {
            let p2 = get_link(x, d.reflect()).unwrap();
            &&& p2.key == p0.key
            &&& p2.balance == p0.balance
            &&& get_link(*p2, d) == get_link(*x0, d.reflect())
            &&& get_link(*p2, d.reflect()) == get_link(p0, d.reflect())
            &&& node_caches(*p2)
        }
    }
}

/// Relates the subtree rooted at `res` to the subtree rooted at `r0` after
/// a double rotation: the grandchild of `r0` along `(d, reflect d)` is
/// rotated above `r0`'s child first, then above `r0` itself.
pub open spec fn double_rotate_frame(r0: TreeNode, d: TreePath, res: TreeNode) -> bool {
    get_link(r0, d) is Some && {
        let c0 = get_link(r0, d).unwrap();
        get_link(*c0, d.reflect()) is Some && {
            let x0 = get_link(*c0, d.reflect()).unwrap();
            &&& res.key == x0.key
            &&& res.balance == x0.balance
            &&& get_link(res, d) is Some
            &&& get_link(res, d.reflect()) is Some
            &&& {
                let cn = get_link(res, d).unwrap();
                &&& cn.key == c0.key
                &&& cn.balance == c0.balance
                &&& get_link(*cn, d) == get_link(*c0, d)
                &&& get_link(*cn, d.reflect()) == get_link(*x0, d)
                &&& node_caches(*cn)
            }
            &&& {
                let rn = get_link(res, d.reflect()).unwrap();
                &&& rn.key == r0.key
                &&& rn.balance == r0.balance
                &&& get_link(*rn, d) == get_link(*x0, d.reflect())
                &&& get_link(*rn, d.reflect()) == get_link(r0, d.reflect())
                &&& node_caches(*rn)
            }
        }
    }
}

/// Relates the result of `bst_full_rotate` to its input: a single rotation
/// when the two paths agree, a double rotation otherwise.
pub open spec fn full_rotate_frame(
    r0: TreeNode,
    ppath: TreePath,
    xpath: TreePath,
    res: TreeNode,
) -> bool {
    if ppath == xpath {
        rotate_frame(r0, ppath, res)
    } else {
        double_rotate_frame(r0, ppath, res)
    }
}

/// A single rotation neither adds nor drops keys, and keeps binary-search
/// ordering.
pub proof fn lemma_rotate_preserves(p0: TreeNode, d: TreePath, x: TreeNode)
    requires
        node_bst(p0),
        rotate_frame(p0, d, x),
    ensures
        node_keys(x) == node_keys(p0),
        node_bst(x),
        node_bst(*get_link(x, d.reflect()).unwrap()),
{
    let x0b = get_link(p0, d).unwrap();
    let x0 = *x0b;
    let p2b = get_link(x, d.reflect()).unwrap();
    let p2 = *p2b;
    lemma_node_bridge(x0b);
    lemma_node_bridge(p2b);
    assert(keys_of(get_link(p0, d)).contains(x0.key));
    assert(node_bst(x0));
    // Keys of the displaced grandchild, and the pivot's key, stay on the
    // side of the old root that the whole child subtree occupied.
    assert forall|k: u32| keys_of(get_link(x0, d.reflect())).contains(k) implies keys_of(
        get_link(p0, d),
    ).contains(k) by {
        assert(node_keys(x0).contains(k));
    }
    assert forall|k: u32| keys_of(get_link(x0, d)).contains(k) implies keys_of(
        get_link(p0, d),
    ).contains(k) by {
        assert(node_keys(x0).contains(k));
    }
    match d {
        TreePath::Left => {
            assert forall|k: u32| keys_of(p2.left).contains(k) implies k < p2.key by {
                assert(keys_of(get_link(p0, d)).contains(k));
                assert(keys_of(p0.left).contains(k));
            }
            assert(node_bst(p2));
            assert forall|k: u32| keys_of(x.right).contains(k) implies k > x.key by {
                assert(node_keys(p2).contains(k));
            }
            assert(node_bst(x));
            assert(node_keys(x) =~= node_keys(p0));
        },
        TreePath::Right => {
            assert forall|k: u32| keys_of(p2.right).contains(k) implies k > p2.key by {
                assert(keys_of(get_link(p0, d)).contains(k));
                assert(keys_of(p0.right).contains(k));
            }
            assert(node_bst(p2));
            assert forall|k: u32| keys_of(x.left).contains(k) implies k < x.key by {
                assert(node_keys(p2).contains(k));
            }
            assert(node_bst(x));
            assert(node_keys(x) =~= node_keys(p0));
        },
    }
}

/// A single rotation moves whole balance states with their nodes, so a
/// subtree whose states all match a policy keeps that property.
pub proof fn lemma_rotate_state(p0: TreeNode, d: TreePath, x: TreeNode, policy: BalancePolicy)
    requires
        node_state(policy, p0),
        rotate_frame(p0, d, x),
    ensures
        node_state(policy, x),
{
    let x0b = get_link(p0, d).unwrap();
    let p2b = get_link(x, d.reflect()).unwrap();
    lemma_node_bridge(x0b);
    lemma_node_bridge(p2b);
    match d {
        TreePath::Left => {
            assert(node_state(policy, *p2b));
        },
        TreePath::Right => {
            assert(node_state(policy, *p2b));
        },
    }
}

/// Performs a rotation on the subtree rooted at `p`, raising the child
/// along `direction` into `p`'s place, and returns the new subtree root.
///
/// The rotation is mirrored: a `direction` of `Left` rotates right, because
/// the direction names where the new subtree root comes from. A missing
/// child along `direction` is a structural bug of the caller and is
/// excluded by precondition.
pub fn bst_rotate(p: Box<TreeNode>, direction: TreePath) -> (x: Box<TreeNode>)
    requires
        get_link(*p, direction) is Some,
        bst_of(Some(p)),
        caches_of(get_link(*p, direction)),
        caches_of(get_link(*p, direction.reflect())),
    ensures
        rotate_frame(*p, direction, *x),
        node_caches(*x),
        keys_of(Some(x)) == keys_of(Some(p)),
        bst_of(Some(x)),
        forall|policy: BalancePolicy|
            state_of(policy, Some(p)) ==> #[trigger] state_of(policy, Some(x)),
{
    let ghost p0 = *p;
    proof {
        lemma_node_bridge(p);
        lemma_node_bridge(get_link(p0, direction).unwrap());
    }
    let mut pn = p;
    let mut xn = (&mut *pn).prune(direction).unwrap();
    let v = (&mut *xn).prune(direction.reflect());

    // The displaced grandchild becomes the pivot's child along `direction`.
    (&mut *pn).set_child(direction, v);
    proof {
        assert(bst_of(pn.left) && bst_of(pn.right));
        assert(caches_of(pn.left) && caches_of(pn.right));
    }
    (&mut *pn).update();

    // The pivot becomes the new root's child opposite `direction`.
    (&mut *xn).set_child(direction.reflect(), Some(pn));
    proof {
        assert(rotate_frame(p0, direction, *xn));
        lemma_rotate_preserves(p0, direction, *xn);
        lemma_node_bridge(get_link(*xn, direction.reflect()).unwrap());
        assert(bst_of(xn.left) && bst_of(xn.right));
        assert(caches_of(xn.left) && caches_of(xn.right));
    }
    (&mut *xn).update();

    proof {
        assert(rotate_frame(p0, direction, *xn));
        lemma_rotate_preserves(p0, direction, *xn);
        lemma_node_bridge(xn);
        assert forall|policy: BalancePolicy|
            state_of(policy, Some(p)) implies #[trigger] state_of(policy, Some(xn)) by {
            lemma_rotate_state(p0, direction, *xn, policy);
        }
    }
    xn
}

/// Performs the rotation a rebalance step asks for: a single rotation when
/// the two paths of the case agree, and a double rotation (child first,
/// then pivot) when they differ. Returns the new subtree root.
pub fn bst_full_rotate(rnode: Box<TreeNode>, ppath: TreePath, xpath: TreePath) -> (r: Box<
    TreeNode,
>)
    requires
        get_link(*rnode, ppath) is Some,
        ppath != xpath ==> get_link(*get_link(*rnode, ppath).unwrap(), xpath) is Some,
        bst_of(Some(rnode)),
        caches_of(get_link(*rnode, ppath)),
        caches_of(get_link(*rnode, ppath.reflect())),
    ensures
        full_rotate_frame(*rnode, ppath, xpath, *r),
        node_caches(*r),
        keys_of(Some(r)) == keys_of(Some(rnode)),
        bst_of(Some(r)),
        forall|policy: BalancePolicy|
            state_of(policy, Some(rnode)) ==> #[trigger] state_of(policy, Some(r)),
{
    let ghost r0 = *rnode;
    let mut rn = rnode;
    if ppath != xpath {
        let c = (&mut *rn).prune(ppath).unwrap();
        proof {
            lemma_node_bridge(get_link(r0, ppath).unwrap());
        }
        let c2 = bst_rotate(c, xpath);
        proof {
            lemma_node_bridge(c2);
        }
        match ppath {
            TreePath::Left => {
                rn.left = Some(c2);
            },
            TreePath::Right => {
                rn.right = Some(c2);
            },
        }
        proof {
            lemma_node_bridge(get_link(*rn, ppath).unwrap());
            assert(bst_of(Some(rn)));
            assert forall|policy: BalancePolicy|
                state_of(policy, Some(rnode)) implies #[trigger] state_of(
                policy,
                Some(rn),
            ) by {
                lemma_node_bridge(rnode);
                lemma_node_bridge(rn);
                assert(state_of(policy, get_link(r0, ppath)));
                assert(state_of(policy, get_link(*rn, ppath)));
            }
        }
        let ghost rmid = *rn;
        let res = bst_rotate(rn, ppath);
        proof {
            assert(rotate_frame(rmid, ppath, *res));
            assert(double_rotate_frame(r0, ppath, *res));
        }
        res
    } else {
        bst_rotate(rn, ppath)
    }
}

/// Perform an insertion using a given key on a binary tree with the given
/// root, rebalancing with the instructions of the tree's policy.
///
/// Inserting a key the tree already holds is a silent no-op.
pub fn bst_insert(root: Tree, key: u32) -> (r: Tree)
    ensures
        r.spec_keys() == root.spec_keys().insert(key),
        r.spec_policy() == root.spec_policy(),
        root.spec_keys().contains(key) ==> r == root,
        root.spec_policy() is Unbalanced ==> crate::unbalanced::plain_inserted(
            root.spec_root(),
            key,
            r.spec_root(),
        ),
{
    proof {
        use_type_invariant(&root);
    }
    let ghost root0 = root;
    let Tree { policy, root: link } = root;
    match link {
        None => {
            let leaf = Box::new(TreeNode::new_with(policy, key));
            proof {
                lemma_node_bridge(leaf);
                lemma_rb_bridge(leaf);
                assert(keys_of(Some(leaf)) =~= keys_of(None::<Box<TreeNode>>).insert(key));
            }
            Tree { policy, root: Some(leaf) }
        },
        Some(n) => {
            let ghost b0: Box<TreeNode> = n;
            let (n2, _added, _act) = insert_at(policy, n, key);
            let mut n2 = n2;
            let ghost m0: Box<TreeNode> = n2;
            // The node now in the root position repairs root-only
            // invariants: the Red-Black policy recolors it black.
            (&mut *n2).mark_root();
            proof {
                lemma_node_bridge(m0);
                lemma_rb_bridge(m0);
                lemma_node_bridge(n2);
                lemma_rb_bridge(n2);
                assert(keys_of(Some(n2)) =~= keys_of(Some(m0)));
                assert(n2.balance.matches(policy));
                if policy is RedBlack {
                    assert(rb_of(Some(n2)) && !is_red(Some(n2)));
                }
                // Repainting the root is the identity whenever the root
                // state was already valid for a root, so a duplicate insert
                // and a baseline insert hand the subtree back untouched.
                if keys_of(Some(b0)).contains(key) {
                    assert(!red_node(*m0));
                    assert(*n2 == *m0);
                    assert(Tree { policy, root: Some(n2) } == root0);
                }
                if policy is Unbalanced {
                    assert(*n2 == *m0);
                }
            }
            Tree { policy, root: Some(n2) }
        },
    }
}

/// Recursive descent of `bst_insert`.
///
/// Returns the new subtree root, whether a node was added, and whether the
/// policy still wants to inspect ancestors (the `Parent` continuation); once
/// a rebalance step answers `Root`, ancestors only refresh their caches.
#[verifier::rlimit(100)]
fn insert_at(policy: BalancePolicy, node: Box<TreeNode>, key: u32) -> (r: (
    Box<TreeNode>,
    bool,
    bool,
))
    requires
        bst_of(Some(node)),
        caches_of(Some(node)),
        state_of(policy, Some(node)),
        policy is Avl ==> avl_of(Some(node)),
        policy is RedBlack ==> rb_of(Some(node)),
    ensures
        bst_of(Some(r.0)),
        caches_of(Some(r.0)),
        state_of(policy, Some(r.0)),
        keys_of(Some(r.0)) == keys_of(Some(node)).insert(key),
        r.1 == !keys_of(Some(node)).contains(key),
        !r.1 ==> r.0 == node && !r.2,
        r.2 ==> r.1 && r.0.key == node.key,
        policy is Avl ==> avl_of(Some(r.0)),
        policy is Avl ==> height_of(Some(node)) <= height_of(Some(r.0)) <= height_of(Some(node))
            + 1,
        policy is Avl && !r.2 ==> height_of(Some(r.0)) == height_of(Some(node)),
        policy is Avl && height_of(Some(r.0)) == height_of(Some(node)) + 1 ==> lean_toward(
            *r.0,
            key,
        ),
        policy is RedBlack ==> bh_of(Some(r.0)) == bh_of(Some(node)),
        policy is RedBlack && !r.2 ==> rb_of(Some(r.0)) && (red_node(*r.0) ==> red_node(*node)),
        policy is RedBlack && r.2 ==> {
            let kd = dir_of(key, r.0.key);
            &&& rb_of(get_link(*r.0, kd))
            &&& rb_of(get_link(*r.0, kd.reflect()))
            &&& bh_of(get_link(*r.0, kd)) == bh_of(get_link(*r.0, kd.reflect()))
            &&& (red_node(*r.0) ==> !is_red(get_link(*r.0, kd.reflect())))
            &&& (red_node(*r.0) && is_red(get_link(*r.0, kd)) ==> red_node(*node))
        },
        policy is Unbalanced ==> crate::unbalanced::plain_inserted(
            Some(node),
            key,
            Some(r.0),
        ),
    decreases node,
{
    let ghost n0: Box<TreeNode> = node;
    proof {
        lemma_node_bridge(node);
        lemma_rb_bridge(node);
    }
    let mut n = node;
    let search_path = (&*n).search(&key);
    let d = match search_path {
        None => {
            // The key is already here: a silent no-op.
            proof {
                assert(keys_of(Some(n)).contains(key));
                assert(keys_of(Some(n)).insert(key) =~= keys_of(Some(n)));
                if policy is Unbalanced {
                    assert(crate::unbalanced::plain_inserted(Some(n0), key, Some(n)));
                }
            }
            return (n, false, false);
        },
        Some(d) => d,
    };
    let c_opt = (&mut *n).prune(d);
    match c_opt {
        None => {
            // Found an empty slot: attach the new node here.
            let leaf = Box::new(TreeNode::new_with_parent(policy, key));
            proof {
                lemma_node_bridge(leaf);
                lemma_rb_bridge(leaf);
            }
            (&mut *n).set_child(d, Some(leaf));
            proof {
                assert(bst_of(n.left) && bst_of(n.right));
                assert(caches_of(n.left) && caches_of(n.right));
            }
            (&mut *n).update();
            proof {
                lemma_node_bridge(n);
                lemma_rb_bridge(n);
                assert(node_keys(*n) =~= node_keys(*n0).insert(key));
                assert(node_bst(*n));
                if policy is Avl {
                    assert(avl_of(Some(n)));
                    assert(height_of(Some(n)) == height_of(Some(n0)) || height_of(Some(n))
                        == height_of(Some(n0)) + 1);
                }
                if policy is RedBlack {
                    assert(bh_of(Some(leaf)) == 0);
                    assert(bh_of(Some(n)) == bh_of(Some(n0)));
                }
                if policy is Unbalanced {
                    assert(crate::unbalanced::plain_inserted(
                        None::<Box<TreeNode>>,
                        key,
                        get_link(*n, d),
                    ));
                    assert(crate::unbalanced::plain_inserted(Some(n0), key, Some(n)));
                }
            }
            (n, true, true)
        },
        Some(c) => {
            let ghost c0: Box<TreeNode> = c;
            let (c2, added, act) = insert_at(policy, c, key);
            let ghost c2g: Box<TreeNode> = c2;
            proof {
                lemma_node_bridge(c0);
                lemma_node_bridge(c2g);
                lemma_rb_bridge(c0);
                lemma_rb_bridge(c2g);
            }
            (&mut *n).set_child(d, Some(c2));
            if !added {
                proof {
                    assert(*n == *n0);
                    assert(keys_of(Some(n0)).contains(key));
                    assert(keys_of(Some(n0)).insert(key) =~= keys_of(Some(n0)));
                    if policy is Unbalanced {
                        assert(crate::unbalanced::plain_inserted(Some(n0), key, Some(n)));
                    }
                }
                return (n, false, false);
            }
            proof {
                // Every key now under the changed child stays on its side
                // of this node's key.
                assert forall|k: u32| keys_of(get_link(*n, d)).contains(k) implies (if d is Left {
                    k < n.key
                } else {
                    k > n.key
                }) by {
                    assert(keys_of(Some(c2g)).contains(k));
                    if k != key {
                        assert(keys_of(get_link(*n0, d)).contains(k));
                    }
                }
                assert(node_bst(*n));
                assert(bst_of(n.left) && bst_of(n.right));
                assert(caches_of(n.left) && caches_of(n.right));
            }
            (&mut *n).update();
            let ghost n1: Box<TreeNode> = n;
            proof {
                lemma_node_bridge(n1);
                lemma_rb_bridge(n1);
                assert(node_keys(*n1) =~= node_keys(*n0).insert(key));
            }
            if !act {
                proof {
                    if policy is Avl {
                        assert(height_of(Some(n1)) == height_of(Some(n0)));
                        assert(avl_of(Some(n1)));
                    }
                    if policy is RedBlack {
                        assert(bh_of(Some(n1)) == bh_of(Some(n0)));
                        assert(rb_of(Some(n1)));
                    }
                    if policy is Unbalanced {
                        assert(crate::unbalanced::plain_inserted(Some(n0), key, Some(n1)));
                    }
                }
                return (n, true, false);
            }
            // The policy inspects this ancestor: derive where the insertion
            // continued below the (unrotated) child.
            let xd = match n.get_child(d).as_ref().unwrap().search(&key) {
                Some(p) => p,
                None => d,
            };
            proof {
                assert(key != c2g.key);
                assert(xd == dir_of(key, c2g.key));
            }
            match policy {
                BalancePolicy::Unbalanced => {
                    // The baseline policy never rotates and stops at once.
                    let (n2, _off) = crate::unbalanced::rebalance_insert(n, (d, xd));
                    proof {
                        assert(crate::unbalanced::plain_inserted(Some(n0), key, Some(n2)));
                    }
                    (n2, true, false)
                },
                BalancePolicy::Avl => {
                    proof {
                        assert(height_of(get_link(*n1, d)) == height_of(Some(c2g)));
                        assert(height_of(get_link(*n1, d.reflect())) == height_of(
                            get_link(*n0, d.reflect()),
                        ));
                        if height_of(get_link(*n1, d)) == height_of(get_link(*n1, d.reflect()))
                            + 2 {
                            assert(height_of(Some(c2g)) == height_of(Some(c0)) + 1);
                            assert(lean_toward(*c2g, key));
                        }
                    }
                    let (n2, off) = crate::avl::rebalance_insert(n, (d, xd));
                    let act2 = matches!(off, NodeOffset::Parent);
                    proof {
                        if off is Root {
                            assert(height_of(Some(n2)) == height_of(Some(n0)));
                        } else {
                            assert(height_of(Some(n2)) == height_of(Some(n1)));
                            if height_of(Some(n2)) == height_of(Some(n0)) + 1 {
                                assert(height_of(Some(c2g)) == height_of(Some(c0)) + 1);
                                assert(lean_toward(*n2, key));
                            }
                        }
                    }
                    (n2, true, act2)
                },
                BalancePolicy::RedBlack => {
                    proof {
                        assert(bh_of(get_link(*n1, d)) == bh_of(Some(c2g)));
                        if red_node(*n1) && is_red(Some(c2g)) && is_red(get_link(*c2g, xd)) {
                            assert(red_node(*c0));
                            assert(false);
                        }
                    }
                    let (n2, off) = crate::redblack::rebalance_insert(n, (d, xd));
                    let act2 = matches!(off, NodeOffset::Parent);
                    proof {
                        lemma_node_bridge(n2);
                        lemma_rb_bridge(n2);
                        if off is Parent {
                            assert(dir_of(key, n2.key) == d);
                        }
                        assert(bh_of(Some(n2)) == bh_of(Some(n0)));
                    }
                    (n2, true, act2)
                },
            }
        },
    }
}

/// Removes the node at the given link, replacing it with its only child (or
/// with nothing), and returns the removed node's key and balance state.
///
/// A node with two children cannot be popped in place: the link is left
/// unchanged and `None` is returned, and the caller swaps in a key from a
/// structurally removable descendant instead.
pub fn bst_pop(tree: &mut Option<Box<TreeNode>>) -> (r: Option<(u32, BalanceState)>)
    requires
        (*old(tree)) is Some,
        bst_of(*old(tree)),
    ensures
        ({
            let n0 = *old(tree).unwrap();
            if n0.left is Some && n0.right is Some {
                r is None && *final(tree) == *old(tree)
            } else {
                &&& r == Some((n0.key, n0.balance))
                &&& *final(tree) == (if n0.left is Some {
                    n0.left
                } else {
                    n0.right
                })
                &&& keys_of(*final(tree)) == keys_of(*old(tree)).remove(n0.key)
            }
        }),
{
    let ghost t0 = *tree;
    let mut node = tree.take().unwrap();
    proof {
        lemma_node_bridge(t0.unwrap());
    }
    if node.left.is_some() && node.right.is_some() {
        *tree = Some(node);
        None
    } else {
        let suc = if node.right.is_some() {
            (&mut *node).prune(TreePath::Right)
        } else {
            (&mut *node).prune(TreePath::Left)
        };
        *tree = suc;
        proof {
            let n0 = *t0.unwrap();
            assert(!keys_of(n0.left).contains(n0.key));
            assert(!keys_of(n0.right).contains(n0.key));
            assert(keys_of(*tree) =~= keys_of(t0).remove(n0.key));
        }
        let popped = *node;
        let (k, b) = popped.pop();
        Some((k, b))
    }
}

/// Perform a deletion using a given key on a binary tree with the given
/// root, and return the new root together with the removed key.
///
/// Deleting a key the tree does not hold returns the tree unchanged. When
/// the found node has two children, the canonical rule applies: the node
/// structurally removed is the in-order successor — the leftmost node of
/// the right subtree, popped by `delete_min_at`, whose contract pins it as
/// the least key of that subtree — its key is swapped into the found node
/// through `replace_key`, and the requested key is what is returned.
pub fn bst_delete(root: Tree, key: &u32) -> (r: (Tree, Option<u32>))
    ensures
        r.0.spec_keys() == root.spec_keys().remove(*key),
        r.0.spec_policy() == root.spec_policy(),
        r.1 == if root.spec_keys().contains(*key) {
            Some(*key)
        } else {
            None::<u32>
        },
        !root.spec_keys().contains(*key) ==> r.0 == root,
{
    proof {
        use_type_invariant(&root);
    }
    let Tree { policy, root: link } = root;
    match link {
        None => {
            proof {
                assert(keys_of(None::<Box<TreeNode>>).remove(*key) =~= keys_of(
                    None::<Box<TreeNode>>,
                ));
            }
            (Tree { policy, root: None }, None)
        },
        Some(n) => {
            let (link2, found, _deficit) = delete_at(policy, n, key);
            if !found {
                return (Tree { policy, root: link2 }, None);
            }
            match link2 {
                None => (Tree { policy, root: None }, Some(*key)),
                Some(mut m) => {
                    let ghost m0: Box<TreeNode> = m;
                    // The node now in the root position repairs root-only
                    // invariants: the Red-Black policy recolors it black.
                    (&mut *m).mark_root();
                    proof {
                        lemma_node_bridge(m0);
                        lemma_rb_bridge(m0);
                        lemma_node_bridge(m);
                        lemma_rb_bridge(m);
                        assert(keys_of(Some(m)) =~= keys_of(Some(m0)));
                        assert(m.balance.matches(policy));
                        if policy is RedBlack {
                            assert(rb_of(Some(m)) && !is_red(Some(m)));
                        }
                    }
                    (Tree { policy, root: Some(m) }, Some(*key))
                },
            }
        },
    }
}

/// Recursive descent of `bst_delete`.
///
/// Returns the new subtree root, whether the key was found and removed, and
/// whether the subtree is one black node short (the Red-Black deficit that
/// the parent's rebalance step settles).
#[verifier::rlimit(100)]
fn delete_at(policy: BalancePolicy, node: Box<TreeNode>, key: &u32) -> (r: (
    Option<Box<TreeNode>>,
    bool,
    bool,
))
    requires
        bst_of(Some(node)),
        caches_of(Some(node)),
        state_of(policy, Some(node)),
        policy is Avl ==> avl_of(Some(node)),
        policy is RedBlack ==> rb_of(Some(node)),
    ensures
        bst_of(r.0),
        caches_of(r.0),
        state_of(policy, r.0),
        keys_of(r.0) == keys_of(Some(node)).remove(*key),
        r.1 == keys_of(Some(node)).contains(*key),
        !r.1 ==> r.0 == Some(node) && !r.2,
        r.2 ==> policy is RedBlack,
        policy is Avl ==> avl_of(r.0) && height_of(r.0) <= height_of(Some(node)) && height_of(
            Some(node),
        ) <= height_of(r.0) + 1,
        policy is RedBlack ==> rb_of(r.0) && bh_of(r.0) + (if r.2 {
            1nat
        } else {
            0nat
        }) == bh_of(Some(node)) && (!r.2 ==> (is_red(r.0) ==> red_node(*node))),
    decreases node,
{
    let ghost n0: Box<TreeNode> = node;
    proof {
        lemma_node_bridge(node);
        lemma_rb_bridge(node);
    }
    let mut n = node;
    let search_path = (&*n).search(key);
    let d = match search_path {
        None => {
            // This is the node to remove.
            let mut link = Some(n);
            let popped = bst_pop(&mut link);
            match popped {
                Some((_k, b)) => {
                    // At most one child: popped in place; a black node
                    // leaves its side one black short.
                    let deficit = match policy {
                        BalancePolicy::RedBlack => !matches!(
                            b,
                            BalanceState::RedBlack(RedBlackBalance { color: RBColor::Red }),
                        ),
                        _ => false,
                    };
                    proof {
                        if link is Some {
                            lemma_node_bridge(link.unwrap());
                            lemma_rb_bridge(link.unwrap());
                        }
                    }
                    return (link, true, deficit);
                },
                None => {
                    // Two children: swap in the in-order successor, the
                    // leftmost key of the right subtree, and remove its
                    // node instead.
                    let mut m = link.unwrap();
                    let rsub = (&mut *m).prune(TreePath::Right).unwrap();
                    let ghost rs0: Box<TreeNode> = rsub;
                    proof {
                        lemma_node_bridge(rs0);
                        lemma_rb_bridge(rs0);
                    }
                    let (r2, min_key, _min_state, def) = delete_min_at(policy, rsub);
                    proof {
                        assert(min_key > m.key);
                        assert(keys_of(Some(rs0)).contains(min_key));
                        assert(forall|k: u32|
                            keys_of(n0.left).contains(k) ==> k < min_key);
                    }
                    let _old_key = (&mut *m).replace_key(min_key);
                    (&mut *m).set_child(TreePath::Right, r2);
                    proof {
                        assert forall|k: u32| keys_of(get_link(*m, TreePath::Right)).contains(
                            k,
                        ) implies k > m.key by {
                            assert(keys_of(Some(rs0)).contains(k));
                        }
                        assert(node_bst(*m));
                        assert(bst_of(m.left) && bst_of(m.right));
                        assert(caches_of(m.left) && caches_of(m.right));
                    }
                    (&mut *m).update();
                    let ghost m1: Box<TreeNode> = m;
                    proof {
                        lemma_node_bridge(m1);
                        lemma_rb_bridge(m1);
                        assert(node_keys(*m1) =~= node_keys(*n0).remove(*key));
                    }
                    let (m2, def2) = fixup_delete(policy, m, TreePath::Right, def);
                    proof {
                        lemma_node_bridge(m2);
                        lemma_rb_bridge(m2);
                    }
                    return (Some(m2), true, def2);
                },
            }
        },
        Some(d) => d,
    };
    let c_opt = (&mut *n).prune(d);
    match c_opt {
        None => {
            // Ran past a leaf: the key is not here.
            proof {
                assert(!keys_of(Some(n0)).contains(*key));
                assert(*n == *n0);
                assert(keys_of(Some(n)).remove(*key) =~= keys_of(Some(n)));
            }
            (Some(n), false, false)
        },
        Some(c) => {
            let ghost c0: Box<TreeNode> = c;
            proof {
                lemma_node_bridge(c0);
                lemma_rb_bridge(c0);
                if d is Left {
                    assert(!keys_of(n0.right).contains(*key));
                } else {
                    assert(!keys_of(n0.left).contains(*key));
                }
            }
            let (c2_link, found, def) = delete_at(policy, c, key);
            (&mut *n).set_child(d, c2_link);
            if !found {
                proof {
                    assert(*n == *n0);
                    assert(keys_of(Some(n)).remove(*key) =~= keys_of(Some(n)));
                }
                return (Some(n), false, false);
            }
            proof {
                if c2_link is Some {
                    lemma_node_bridge(c2_link.unwrap());
                    lemma_rb_bridge(c2_link.unwrap());
                }
                assert forall|k: u32| keys_of(get_link(*n, d)).contains(k) implies (if d is Left {
                    k < n.key
                } else {
                    k > n.key
                }) by {
                    assert(keys_of(get_link(*n0, d)).contains(k));
                }
                assert(node_bst(*n));
                assert(bst_of(n.left) && bst_of(n.right));
                assert(caches_of(n.left) && caches_of(n.right));
            }
            (&mut *n).update();
            let ghost n1: Box<TreeNode> = n;
            proof {
                lemma_node_bridge(n1);
                lemma_rb_bridge(n1);
                assert(node_keys(*n1) =~= node_keys(*n0).remove(*key));
            }
            let (n2, def2) = fixup_delete(policy, n, d, def);
            proof {
                lemma_node_bridge(n2);
                lemma_rb_bridge(n2);
            }
            (Some(n2), true, def2)
        },
    }
}

/// Removes the smallest key of the subtree rooted at `node` — the
/// structural removal behind the canonical two-child delete, which pops
/// the in-order successor (the leftmost node of the target's right
/// subtree) and swaps its key into the target: descend left to the
/// in-order least node, pop it, and rebalance on the way back up.
///
/// Returns the new subtree root, the removed key (the least key of the
/// subtree), the removed node's own balance state, and whether the subtree
/// is one black node short.
#[verifier::rlimit(100)]
pub fn delete_min_at(policy: BalancePolicy, node: Box<TreeNode>) -> (r: (
    Option<Box<TreeNode>>,
    u32,
    BalanceState,
    bool,
))
    requires
        bst_of(Some(node)),
        caches_of(Some(node)),
        state_of(policy, Some(node)),
        policy is Avl ==> avl_of(Some(node)),
        policy is RedBlack ==> rb_of(Some(node)),
    ensures
        bst_of(r.0),
        caches_of(r.0),
        state_of(policy, r.0),
        keys_of(Some(node)).contains(r.1),
        forall|k: u32| keys_of(Some(node)).contains(k) ==> r.1 <= k,
        keys_of(r.0) == keys_of(Some(node)).remove(r.1),
        r.2 == crate::tree::node::balance_at(Some(node), r.1),
        r.3 ==> policy is RedBlack,
        policy is Avl ==> avl_of(r.0) && height_of(r.0) <= height_of(Some(node)) && height_of(
            Some(node),
        ) <= height_of(r.0) + 1,
        policy is RedBlack ==> rb_of(r.0) && bh_of(r.0) + (if r.3 {
            1nat
        } else {
            0nat
        }) == bh_of(Some(node)) && (!r.3 ==> (is_red(r.0) ==> red_node(*node))),
    decreases node,
{
    let ghost n0: Box<TreeNode> = node;
    proof {
        lemma_node_bridge(node);
        lemma_rb_bridge(node);
    }
    let mut n = node;
    let c_opt = (&mut *n).prune(TreePath::Left);
    match c_opt {
        None => {
            // The leftmost node: pop it in place.
            proof {
                assert(*n == *n0);
            }
            let mut link = Some(n);
            let popped = bst_pop(&mut link);
            let (k, b) = match popped {
                Some(kb) => kb,
                None => {
                    proof {
                        assert(false);
                    }
                    (0, crate::tree::inspect::state_new(policy))
                },
            };
            let deficit = match policy {
                BalancePolicy::RedBlack => !matches!(
                    b,
                    BalanceState::RedBlack(RedBlackBalance { color: RBColor::Red }),
                ),
                _ => false,
            };
            proof {
                if link is Some {
                    lemma_node_bridge(link.unwrap());
                    lemma_rb_bridge(link.unwrap());
                }
                assert(keys_of(n0.left) =~= Set::<u32>::empty());
            }
            (link, k, b, deficit)
        },
        Some(c) => {
            let ghost c0: Box<TreeNode> = c;
            proof {
                lemma_node_bridge(c0);
                lemma_rb_bridge(c0);
            }
            let (c2_link, min_key, min_state, def) = delete_min_at(policy, c);
            (&mut *n).set_child(TreePath::Left, c2_link);
            proof {
                if c2_link is Some {
                    lemma_node_bridge(c2_link.unwrap());
                    lemma_rb_bridge(c2_link.unwrap());
                }
                assert forall|k: u32| keys_of(get_link(*n, TreePath::Left)).contains(
                    k,
                ) implies k < n.key by {
                    assert(keys_of(get_link(*n0, TreePath::Left)).contains(k));
                }
                assert(node_bst(*n));
                assert(bst_of(n.left) && bst_of(n.right));
                assert(caches_of(n.left) && caches_of(n.right));
            }
            (&mut *n).update();
            let ghost n1: Box<TreeNode> = n;
            proof {
                lemma_node_bridge(n1);
                lemma_rb_bridge(n1);
                assert(node_keys(*n1) =~= node_keys(*n0).remove(min_key));
                assert(keys_of(Some(n0)).contains(min_key));
                assert(min_key < n0.key);
                assert forall|k: u32| keys_of(Some(n0)).contains(k) implies min_key <= k by {
                    if k != n0.key && !keys_of(n0.left).contains(k) {
                        assert(keys_of(n0.right).contains(k));
                        assert(min_key < n0.key);
                    }
                }
            }
            let (n2, def2) = fixup_delete(policy, n, TreePath::Left, def);
            proof {
                lemma_node_bridge(n2);
                lemma_rb_bridge(n2);
            }
            (Some(n2), min_key, min_state, def2)
        },
    }
}

/// One rebalance step on the way back up from a deletion: the policy of the
/// tree inspects the node whose side `d` just shrank (or, for the Red-Black
/// policy, is one black node short when `deficit` is set) and rotates or
/// recolors as its rules demand.
#[verifier::rlimit(100)]
fn fixup_delete(policy: BalancePolicy, node: Box<TreeNode>, d: TreePath, deficit: bool) -> (r: (
    Box<TreeNode>,
    bool,
))
    requires
        bst_of(Some(node)),
        caches_of(Some(node)),
        state_of(policy, Some(node)),
        deficit ==> policy is RedBlack,
        policy is Avl ==> {
            &&& avl_of(get_link(*node, d))
            &&& avl_of(get_link(*node, d.reflect()))
            &&& height_of(get_link(*node, d.reflect())) <= height_of(get_link(*node, d)) + 2
            &&& height_of(get_link(*node, d)) <= height_of(get_link(*node, d.reflect())) + 1
        },
        policy is RedBlack ==> {
            &&& rb_of(get_link(*node, d))
            &&& rb_of(get_link(*node, d.reflect()))
            &&& bh_of(get_link(*node, d)) + (if deficit {
                1nat
            } else {
                0nat
            }) == bh_of(get_link(*node, d.reflect()))
            &&& (red_node(*node) ==> !is_red(get_link(*node, d.reflect())))
            &&& (!deficit ==> (red_node(*node) ==> !is_red(get_link(*node, d))))
        },
    ensures
        bst_of(Some(r.0)),
        caches_of(Some(r.0)),
        state_of(policy, Some(r.0)),
        keys_of(Some(r.0)) == keys_of(Some(node)),
        r.1 ==> policy is RedBlack,
        // A removal that cost no black node (for Red-Black, a red pop)
        // needs no restructuring at all, and the baseline policy never
        // restructures.
        policy is RedBlack && !deficit ==> r.0 == node,
        policy is Unbalanced ==> r.0 == node,
        policy is Avl ==> avl_of(Some(r.0)) && height_of(Some(r.0)) <= height_of(Some(node))
            && height_of(Some(node)) <= height_of(Some(r.0)) + 1 && (height_of(
            get_link(*node, d.reflect()),
        ) <= height_of(get_link(*node, d)) + 1 ==> r.0 == node),
        policy is RedBlack ==> rb_of(Some(r.0)) && bh_of(Some(r.0)) + (if r.1 {
            1nat
        } else {
            0nat
        }) == bh_of(get_link(*node, d.reflect())) + (if red_node(*node) {
            0nat
        } else {
            1nat
        }) && (!r.1 ==> (is_red(Some(r.0)) ==> red_node(*node))) && (r.1 ==> !red_node(*r.0)),
{
    match policy {
        BalancePolicy::Unbalanced => {
            let (n2, _off) = crate::unbalanced::rebalance_delete(node, d);
            (n2, false)
        },
        BalancePolicy::Avl => {
            let (n2, _off) = crate::avl::rebalance_delete(node, d);
            (n2, false)
        },
        BalancePolicy::RedBlack => {
            if deficit {
                let ghost n0: Box<TreeNode> = node;
                let (n2, off) = crate::redblack::rebalance_delete(node, d);
                match off {
                    NodeOffset::Root => (n2, false),
                    NodeOffset::Parent => (n2, true),
                    NodeOffset::Child(p) => {
                        // Re-anchor one level down into the just-rotated
                        // region and settle the remaining deficit there.
                        let mut m = n2;
                        let ghost mg: Box<TreeNode> = m;
                        proof {
                            lemma_node_bridge(mg);
                            lemma_rb_bridge(mg);
                            lemma_node_bridge(get_link(*mg, p).unwrap());
                            lemma_rb_bridge(get_link(*mg, p).unwrap());
                        }
                        let inner = (&mut *m).prune(p).unwrap();
                        let (inner2, off2) = crate::redblack::rebalance_delete(inner, p);
                        proof {
                            assert(off2 is Root);
                            lemma_node_bridge(inner2);
                            lemma_rb_bridge(inner2);
                        }
                        (&mut *m).set_child(p, Some(inner2));
                        proof {
                            assert forall|k: u32| keys_of(get_link(*m, p)).contains(
                                k,
                            ) implies (if p is Left {
                                k < m.key
                            } else {
                                k > m.key
                            }) by {
                                assert(keys_of(get_link(*mg, p)).contains(k));
                            }
                            assert(node_bst(*m));
                            assert(bst_of(m.left) && bst_of(m.right));
                            assert(caches_of(m.left) && caches_of(m.right));
                        }
                        (&mut *m).update();
                        proof {
                            lemma_node_bridge(m);
                            lemma_rb_bridge(m);
                            assert(keys_of(Some(m)) =~= keys_of(Some(n0)));
                            assert(rb_of(Some(m)));
                        }
                        (m, false)
                    },
                }
            } else {
                proof {
                    lemma_node_bridge(node);
                    lemma_rb_bridge(node);
                    assert(rb_of(Some(node)));
                }
                (node, false)
            }
        },
    }
}

/// Appends the keys of a subtree to `out` in order: left subtree, own key,
/// right subtree.
pub fn collect_inorder(t: &Option<Box<TreeNode>>, out: &mut Vec<u32>)
    ensures
        final(out)@ == old(out)@ + crate::tree::node::inorder_of(*t),
    decreases t,
{
    match t {
        None => {
            proof {
                assert(out@ =~= old(out)@ + crate::tree::node::inorder_of(*t));
            }
        },
        Some(n) => {
            collect_inorder(&n.left, out);
            out.push(n.key);
            collect_inorder(&n.right, out);
            proof {
                assert(out@ =~= old(out)@ + crate::tree::node::inorder_of(*t));
            }
        },
    }
}

/// Performs a binary search on a tree with the given root.
///
/// Returns true exactly when `key` is stored in the tree.
pub fn bst_search(root: &Tree, key: &u32) -> (r: bool)
    ensures
        r == root.spec_keys().contains(*key),
{
    proof {
        use_type_invariant(root);
    }
    search_at(&root.root, key)
}

/// Recursive descent of `bst_search`: compare, then follow the matching
/// child until the key or an empty slot is found.
fn search_at(t: &Option<Box<TreeNode>>, key: &u32) -> (r: bool)
    requires
        bst_of(*t),
    ensures
        r == keys_of(*t).contains(*key),
    decreases t,
{
    match t {
        None => false,
        Some(n) => {
            match n.search(key) {
                None => true,
                Some(TreePath::Left) => {
                    proof {
                        assert(!keys_of(n.right).contains(*key));
                    }
                    search_at(&n.left, key)
                },
                Some(TreePath::Right) => {
                    proof {
                        assert(!keys_of(n.left).contains(*key));
                    }
                    search_at(&n.right, key)
                },
            }
        },
    }
}

} // verus!
