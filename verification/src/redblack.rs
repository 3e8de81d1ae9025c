//! The Red-Black balancing policy: every node carries a color, no red node
//! has a red child, and every root-to-empty path crosses the same number of
//! black nodes.

use vstd::prelude::*;

use crate::tree::inspect::{BalanceState, NodeOffset};
use crate::tree::node::{
    bst_of, caches_of, get_link, height_of, keys_of, lemma_node_bridge, node_bst, node_caches,
    state_of,
    TreeNode,
};
use crate::tree::ops::{bst_full_rotate, bst_rotate};
use crate::tree::BalancePolicy;
use crate::tree::TreePath;

verus! {

/// True when the root of `t` is a red node.
pub open spec fn is_red(t: Option<Box<TreeNode>>) -> bool {
    match t {
        None => false,
        Some(n) => red_node(*n),
    }
}

/// True when a node carries a red Red-Black balance state.
pub open spec fn red_node(n: TreeNode) -> bool {
    match n.balance {
        BalanceState::RedBlack(rb) => rb.color is Red,
        _ => false,
    }
}

/// The black height of a subtree: the number of black nodes on a longest
/// root-to-empty path, counting the root itself when it is black.
pub open spec fn bh_of(t: Option<Box<TreeNode>>) -> nat
    decreases t,
{
    match t {
        None => 0,
        Some(n) => (if red_node(*n) {
            0nat
        } else {
            1nat
        }) + if bh_of(n.left) >= bh_of(n.right) {
            bh_of(n.left)
        } else {
            bh_of(n.right)
        },
    }
}

/// The Red-Black shape invariant of a subtree: no red node has a red child,
/// and at every node the black heights of the two sides agree (so every
/// root-to-empty path crosses the same number of black nodes).
pub open spec fn rb_of(t: Option<Box<TreeNode>>) -> bool
    decreases t,
{
    match t {
        None => true,
        Some(n) => {
            &&& rb_of(n.left)
            &&& rb_of(n.right)
            &&& bh_of(n.left) == bh_of(n.right)
            &&& (red_node(*n) ==> !is_red(n.left) && !is_red(n.right))
        },
    }
}

/// The black height a node's subtree has, derived from its children.
pub open spec fn node_bh(n: TreeNode) -> nat {
    (if red_node(n) {
        0nat
    } else {
        1nat
    }) + if bh_of(n.left) >= bh_of(n.right) {
        bh_of(n.left)
    } else {
        bh_of(n.right)
    }
}

/// The Red-Black shape invariant at a single node.
pub open spec fn node_rb(n: TreeNode) -> bool {
    &&& rb_of(n.left)
    &&& rb_of(n.right)
    &&& bh_of(n.left) == bh_of(n.right)
    &&& (red_node(n) ==> !is_red(n.left) && !is_red(n.right))
}

/// The Red-Black predicates applied to a non-empty link agree with their
/// node-level forms applied to the link's node.
pub proof fn lemma_rb_bridge(b: Box<TreeNode>)
    ensures
        is_red(Some(b)) == red_node(*b),
        bh_of(Some(b)) == node_bh(*b),
        rb_of(Some(b)) == node_rb(*b),
{
}

/// A subtree of positive black height is not empty.
pub proof fn lemma_black_is_some(t: Option<Box<TreeNode>>)
    requires
        bh_of(t) > 0,
    ensures
        t is Some,
{
    if t is None {
        assert(bh_of(t) == 0);
    }
}

/// The black height of a subtree never exceeds its height.
pub proof fn lemma_bh_le_height(t: Option<Box<TreeNode>>)
    ensures
        bh_of(t) <= height_of(t),
    decreases t,
{
    match t {
        None => {},
        Some(n) => {
            lemma_bh_le_height(n.left);
            lemma_bh_le_height(n.right);
        },
    }
}

/// Checks at run time that a subtree satisfies the Red-Black shape
/// invariant, and reports its black height.
pub fn rb_holds(t: &Option<Box<TreeNode>>) -> (r: (bool, u64))
    requires
        bst_of(*t),
        caches_of(*t),
    ensures
        r.0 == rb_of(*t),
        r.0 ==> r.1 == bh_of(*t),
    decreases t,
{
    match t {
        None => (true, 0),
        Some(n) => {
            let (lv, lb) = rb_holds(&n.left);
            let (rv, rb) = rb_holds(&n.right);
            if !(lv && rv) {
                return (false, 0);
            }
            if lb != rb {
                return (false, 0);
            }
            let me = node_color(&**n);
            if me == RBColor::Red && (link_color(&n.left) == RBColor::Red || link_color(&n.right)
                == RBColor::Red) {
                return (false, 0);
            }
            proof {
                lemma_bh_le_height(n.left);
                crate::tree::node::lemma_subtree_bounds(n.left);
            }
            if me == RBColor::Red {
                (true, lb)
            } else {
                (true, lb + 1)
            }
        },
    }
}

/// Recoloring the root of a subtree changes no key, no ordering, no cache,
/// and no height; it changes at most the subtree's own black height.
pub proof fn lemma_recolor(b1: Box<TreeNode>, b2: Box<TreeNode>)
    requires
        b2.key == b1.key,
        b2.left == b1.left,
        b2.right == b1.right,
        b2.height == b1.height,
        b2.leaves == b1.leaves,
        b2.balance.matches(BalancePolicy::RedBlack),
    ensures
        keys_of(Some(b2)) == keys_of(Some(b1)),
        bst_of(Some(b2)) == bst_of(Some(b1)),
        caches_of(Some(b2)) == caches_of(Some(b1)),
        height_of(Some(b2)) == height_of(Some(b1)),
        state_of(BalancePolicy::RedBlack, Some(b1)) ==> state_of(
            BalancePolicy::RedBlack,
            Some(b2),
        ),
        bh_of(Some(b2)) == bh_of(b1.left) + if red_node(*b2) {
            0nat
        } else {
            1nat
        } || bh_of(Some(b2)) == bh_of(b1.right) + if red_node(*b2) {
            0nat
        } else {
            1nat
        },
{
    lemma_node_bridge(b1);
    lemma_node_bridge(b2);
    lemma_rb_bridge(b1);
    lemma_rb_bridge(b2);
    assert(keys_of(Some(b2)) =~= keys_of(Some(b1)));
}

/// Node colors.
#[derive(Clone, Copy, Debug, PartialEq, Eq, Structural)]
pub enum RBColor {
    Red,
    Black,
}

/// Balance state of the Red-Black policy: the node's color.
#[derive(Clone, Copy, Debug, PartialEq, Eq, Structural)]
pub struct RedBlackBalance {
    pub color: RBColor,
}

impl RedBlackBalance {
    /// Balance state for a freshly attached non-root node: red, so that the
    /// black count of no path changes.
    pub fn new() -> (r: RedBlackBalance)
        ensures
            r == (RedBlackBalance { color: RBColor::Red }),
    {
        RedBlackBalance { color: RBColor::Red }
    }

    /// Balance state for a node created as the whole tree: the root is black.
    pub fn new_root() -> (r: RedBlackBalance)
        ensures
            r == (RedBlackBalance { color: RBColor::Black }),
    {
        RedBlackBalance { color: RBColor::Black }
    }

    /// Called when a node moves into the root position: the root must be
    /// black, so recolor it.
    pub fn adjust_root(&mut self)
        ensures
            *final(self) == (RedBlackBalance { color: RBColor::Black }),
    {
        self.color = RBColor::Black;
    }
}

/// Reads the color of the root of a link; an empty link counts as black,
/// and so does a node whose balance state belongs to another policy.
fn link_color(t: &Option<Box<TreeNode>>) -> (r: RBColor)
    ensures
        (r is Red) == is_red(*t),
{
    match t {
        None => RBColor::Black,
        Some(n) => {
            match n.get_balance() {
                BalanceState::RedBlack(rb) => rb.color,
                _ => RBColor::Black,
            }
        },
    }
}

/// Reads the color of a node; a balance state of another policy counts as
/// black.
fn node_color(n: &TreeNode) -> (r: RBColor)
    ensures
        (r is Red) == red_node(*n),
        n.balance.matches(BalancePolicy::RedBlack) ==> n.balance == BalanceState::RedBlack(
            RedBlackBalance { color: r },
        ),
{
    match n.get_balance() {
        BalanceState::RedBlack(rb) => rb.color,
        _ => RBColor::Black,
    }
}

/// Recolors a node.
fn set_color(n: &mut TreeNode, color: RBColor)
    ensures
        *final(n) == (TreeNode {
            balance: BalanceState::RedBlack(RedBlackBalance { color }),
            ..*old(n)
        }),
{
    n.balance = BalanceState::RedBlack(RedBlackBalance { color });
}

/// Recolors the node at a non-empty child link, touching nothing else.
fn set_child_color(n: &mut TreeNode, d: TreePath, color: RBColor)
    requires
        get_link(*old(n), d) is Some,
    ensures
        get_link(*final(n), d) is Some,
        *get_link(*final(n), d).unwrap() == (TreeNode {
            balance: BalanceState::RedBlack(RedBlackBalance { color }),
            ..*get_link(*old(n), d).unwrap()
        }),
        get_link(*final(n), d.reflect()) == get_link(*old(n), d.reflect()),
        *final(n) == (TreeNode {
            left: final(n).left,
            right: final(n).right,
            ..*old(n)
        }),
{
    match d {
        TreePath::Left => {
            match &mut n.left {
                Some(c) => {
                    set_color(&mut *c, color);
                },
                None => {},
            }
        },
        TreePath::Right => {
            match &mut n.right {
                Some(c) => {
                    set_color(&mut *c, color);
                },
                None => {},
            }
        },
    }
}

/// The black and red balance states, for stating recolor identities.
pub open spec fn black_state() -> BalanceState {
    BalanceState::RedBlack(RedBlackBalance { color: RBColor::Black })
}

/// The red balance state.
pub open spec fn red_state() -> BalanceState {
    BalanceState::RedBlack(RedBlackBalance { color: RBColor::Red })
}

/// The exact tree the insertion fixup's rotation case leaves behind: the
/// rotation of `bst_full_rotate` over `(d, xd)`, with the subtree's new
/// root recolored black and the displaced ancestor — its child opposite
/// `d` — recolored red.
pub open spec fn insert_rotation_frame(
    r0: TreeNode,
    d: TreePath,
    xd: TreePath,
    res: TreeNode,
) -> bool {
    if d == xd {
        get_link(r0, d) is Some && {
            let c0 = get_link(r0, d).unwrap();
            &&& res.key == c0.key
            &&& res.balance == black_state()
            &&& get_link(res, d) == get_link(*c0, d)
            &&& get_link(res, d.reflect()) is Some
            &&& {
                let p2 = get_link(res, d.reflect()).unwrap();
                &&& p2.key == r0.key
                &&& p2.balance == red_state()
                &&& get_link(*p2, d) == get_link(*c0, d.reflect())
                &&& get_link(*p2, d.reflect()) == get_link(r0, d.reflect())
                &&& node_caches(*p2)
            }
        }
    } else {
        get_link(r0, d) is Some && {
            let c0 = get_link(r0, d).unwrap();
            get_link(*c0, d.reflect()) is Some && {
                let x0 = get_link(*c0, d.reflect()).unwrap();
                &&& res.key == x0.key
                &&& res.balance == black_state()
                &&& get_link(res, d) is Some
                &&& get_link(res, d.reflect()) is Some
                &&& {
                    let cn = get_link(res, d).unwrap();
                    &&& cn.key == c0.key
                    &&& cn.balance == c0.balance
                    &&& get_link(*cn, d) == get_link(*c0, d)
                    &&& get_link(*cn, d.reflect()) == get_link(*x0, d)
                    &&& node_caches(*cn)
                }
                &&& {
                    let rn = get_link(res, d.reflect()).unwrap();
                    &&& rn.key == r0.key
                    &&& rn.balance == red_state()
                    &&& get_link(*rn, d) == get_link(*x0, d.reflect())
                    &&& get_link(*rn, d.reflect()) == get_link(r0, d.reflect())
                    &&& node_caches(*rn)
                }
            }
        }
    }
}

/// Red-Black rebalance step after an insertion, at one ancestor of the new
/// node.
///
/// `path` is the pair (side of this node the insertion went down, side the
/// insertion continued at the child); a double-red violation, if any, sits
/// between this node's child and grandchild along that pair. A red parent
/// with a red uncle is repaired by recoloring and pushes the question one
/// level up; a red parent with a black uncle is repaired by one rotation
/// over `path`; a black parent needs nothing. The recolor case paints this
/// node red unconditionally: when that reaches the whole tree's root, the
/// walk's caller repaints the root black through `mark_root`, which leaves
/// the same tree as skipping the recolor there.
#[verifier::rlimit(40)]
pub fn rebalance_insert(node: Box<TreeNode>, path: (TreePath, TreePath)) -> (r: (
    Box<TreeNode>,
    NodeOffset,
))
    requires
        bst_of(Some(node)),
        caches_of(Some(node)),
        state_of(BalancePolicy::RedBlack, Some(node)),
        get_link(*node, path.0) is Some,
        rb_of(get_link(*get_link(*node, path.0).unwrap(), path.1)),
        rb_of(get_link(*get_link(*node, path.0).unwrap(), path.1.reflect())),
        bh_of(get_link(*get_link(*node, path.0).unwrap(), path.1)) == bh_of(
            get_link(*get_link(*node, path.0).unwrap(), path.1.reflect()),
        ),
        rb_of(get_link(*node, path.0.reflect())),
        bh_of(get_link(*node, path.0)) == bh_of(get_link(*node, path.0.reflect())),
        is_red(get_link(*node, path.0)) ==> !is_red(
            get_link(*get_link(*node, path.0).unwrap(), path.1.reflect()),
        ),
        red_node(*node) ==> !is_red(get_link(*node, path.0.reflect())),
        red_node(*node) && is_red(get_link(*node, path.0)) ==> !is_red(
            get_link(*get_link(*node, path.0).unwrap(), path.1),
        ),
    ensures
        bst_of(Some(r.0)),
        caches_of(Some(r.0)),
        state_of(BalancePolicy::RedBlack, Some(r.0)),
        keys_of(Some(r.0)) == keys_of(Some(node)),
        bh_of(Some(r.0)) == bh_of(Some(node)),
        r.1 is Root || r.1 is Parent,
        r.1 is Root ==> rb_of(Some(r.0)) && (red_node(*r.0) ==> red_node(*node)),
        r.1 is Parent ==> {
            &&& r.0.key == node.key
            &&& rb_of(get_link(*r.0, path.0))
            &&& rb_of(get_link(*r.0, path.0.reflect()))
            &&& bh_of(get_link(*r.0, path.0)) == bh_of(get_link(*r.0, path.0.reflect()))
            &&& (red_node(*r.0) ==> !is_red(get_link(*r.0, path.0.reflect())))
            &&& (red_node(*r.0) && is_red(get_link(*r.0, path.0)) ==> red_node(*node))
        },
        // The case table, deciding on the colors of the child along the
        // pair, of its child, and of the uncle: a double red one level up
        // is left to the next ancestor; no double red below means no work;
        // a red uncle means the pure recoloring; a black uncle means the
        // rotation over `path` with its two recolors.
        ({
            let c = get_link(*node, path.0);
            let x = get_link(*get_link(*node, path.0).unwrap(), path.1);
            let u = get_link(*node, path.0.reflect());
            &&& (red_node(*node) && is_red(c) ==> r.0 == node && r.1 is Parent)
            &&& (!(red_node(*node) && is_red(c)) && !is_red(x) ==> r.0 == node && r.1 is Root)
            &&& (!(red_node(*node) && is_red(c)) && is_red(x) && !is_red(c) ==> r.0 == node
                && r.1 is Root)
            &&& (!(red_node(*node) && is_red(c)) && is_red(x) && is_red(c) && is_red(u) ==> {
                &&& r.1 is Parent
                &&& get_link(*r.0, path.0) is Some
                &&& *get_link(*r.0, path.0).unwrap() == (TreeNode {
                    balance: black_state(),
                    ..*get_link(*node, path.0).unwrap()
                })
                &&& get_link(*r.0, path.0.reflect()) is Some
                &&& *get_link(*r.0, path.0.reflect()).unwrap() == (TreeNode {
                    balance: black_state(),
                    ..*get_link(*node, path.0.reflect()).unwrap()
                })
                &&& *r.0 == (TreeNode {
                    balance: red_state(),
                    left: r.0.left,
                    right: r.0.right,
                    ..*node
                })
            })
            &&& (!(red_node(*node) && is_red(c)) && is_red(x) && is_red(c) && !is_red(u)
                ==> r.1 is Root && insert_rotation_frame(*node, path.0, path.1, *r.0))
        }),
{
    let d = path.0;
    let xd = path.1;
    let ghost r0 = *node;
    proof {
        lemma_node_bridge(node);
        lemma_rb_bridge(node);
        lemma_node_bridge(get_link(r0, d).unwrap());
        lemma_rb_bridge(get_link(r0, d).unwrap());
    }
    let my_col = node_color(&node);
    let c_col = link_color(node.get_child(d));
    let x_col = link_color(node.get_child(d).as_ref().unwrap().get_child(xd));
    let u_col = link_color(node.get_child(d.reflect()));

    // A double red between this node and its child is out of reach here:
    // it is repaired one level further up, where it sits between child and
    // grandchild.
    if my_col == RBColor::Red && c_col == RBColor::Red {
        return (node, NodeOffset::Parent);
    }
    // No double red below: nothing left to repair.
    if x_col == RBColor::Black {
        proof {
            assert(rb_of(Some(node)));
        }
        return (node, NodeOffset::Root);
    }
    match (c_col, u_col) {
        (RBColor::Red, RBColor::Red) => {
            // Red uncle: recolor parent and uncle black and this node red;
            // a double red may now sit above.
            let mut n = node;
            set_child_color(&mut *n, d, RBColor::Black);
            set_child_color(&mut *n, d.reflect(), RBColor::Black);
            set_color(&mut *n, RBColor::Red);
            proof {
                lemma_recolor(get_link(r0, d).unwrap(), get_link(*n, d).unwrap());
                lemma_recolor(
                    get_link(r0, d.reflect()).unwrap(),
                    get_link(*n, d.reflect()).unwrap(),
                );
                lemma_rb_bridge(get_link(r0, d).unwrap());
                lemma_rb_bridge(get_link(r0, d.reflect()).unwrap());
                lemma_rb_bridge(get_link(*n, d).unwrap());
                lemma_rb_bridge(get_link(*n, d.reflect()).unwrap());
                lemma_node_bridge(n);
                lemma_rb_bridge(n);
                assert(node_bst(*n));
                assert(node_caches(*n));
                assert(keys_of(Some(n)) =~= keys_of(Some(node)));
                assert(*n == (TreeNode {
                    balance: red_state(),
                    left: n.left,
                    right: n.right,
                    ..r0
                }));
            }
            (n, NodeOffset::Parent)
        },
        (RBColor::Red, RBColor::Black) => {
            // Black uncle: one rotation over `path` repairs the violation.
            proof {
                let c0 = *get_link(r0, d).unwrap();
                lemma_rb_bridge(get_link(c0, xd).unwrap());
                lemma_node_bridge(get_link(c0, xd).unwrap());
            }
            let mut res = bst_full_rotate(node, d, xd);
            let ghost m0: Box<TreeNode> = res;
            set_color(&mut *res, RBColor::Black);
            set_child_color(&mut *res, d.reflect(), RBColor::Red);
            let ghost m2: Box<TreeNode> = res;
            proof {
                lemma_node_bridge(m0);
                lemma_rb_bridge(m0);
                lemma_node_bridge(m2);
                lemma_rb_bridge(m2);
                let gb0 = get_link(*m0, d.reflect()).unwrap();
                let gb2 = get_link(*m2, d.reflect()).unwrap();
                lemma_recolor(gb0, gb2);
                lemma_node_bridge(gb0);
                lemma_rb_bridge(gb0);
                lemma_node_bridge(gb2);
                lemma_rb_bridge(gb2);
                let ob = get_link(*m2, d).unwrap();
                lemma_node_bridge(ob);
                lemma_rb_bridge(ob);
                assert(node_bst(*m2));
                assert(node_caches(*m2));
                assert(keys_of(Some(m2)) =~= keys_of(Some(node)));
                assert(node_rb(*gb2));
                assert(rb_of(Some(res)));
                assert(bh_of(Some(res)) == bh_of(Some(node)));
                assert(insert_rotation_frame(r0, d, xd, *m2));
            }
            (res, NodeOffset::Root)
        },
        (RBColor::Black, _) => {
            // Black parent: the red grandchild is no violation.
            proof {
                assert(rb_of(Some(node)));
            }
            (node, NodeOffset::Root)
        },
    }
}

/// The exact tree the deletion fixup's red-sibling case leaves behind: the
/// single rotation raising the sibling of the short side `d` over the node,
/// with the raised sibling recolored black and the demoted node — now the
/// raised sibling's child along `d` — recolored red.
pub open spec fn sibling_rotation_frame(r0: TreeNode, d: TreePath, res: TreeNode) -> bool {
    get_link(r0, d.reflect()) is Some && {
        let s0 = get_link(r0, d.reflect()).unwrap();
        &&& res.key == s0.key
        &&& res.balance == black_state()
        &&& get_link(res, d.reflect()) == get_link(*s0, d.reflect())
        &&& get_link(res, d) is Some
        &&& {
            let p2 = get_link(res, d).unwrap();
            &&& p2.key == r0.key
            &&& p2.balance == red_state()
            &&& get_link(*p2, d) == get_link(r0, d)
            &&& get_link(*p2, d.reflect()) == get_link(*s0, d)
            &&& node_caches(*p2)
        }
    }
}

/// The inner path of the deletion fixup's donation rotation, within the
/// black sibling of the short side `xpath`: the sibling's outer (in-line)
/// child when it is red — which needs one rotation instead of two — and
/// the inner (elbow) child otherwise.
pub open spec fn delete_donation_path(node: TreeNode, xpath: TreePath) -> TreePath {
    let s0 = get_link(node, xpath.reflect()).unwrap();
    if is_red(get_link(*s0, xpath.reflect())) {
        xpath.reflect()
    } else {
        xpath
    }
}

/// The exact tree the deletion fixup's donation case leaves behind: the
/// rotation of `bst_full_rotate` over the sibling side of the short side
/// `d` and the donation path, with the subtree's new root taking the old
/// node's color and both of its children recolored black.
pub open spec fn donation_frame(r0: TreeNode, d: TreePath, res: TreeNode) -> bool {
    get_link(r0, d.reflect()) is Some && {
        let s0 = get_link(r0, d.reflect()).unwrap();
        if delete_donation_path(r0, d) == d.reflect() {
            // Single rotation: the sibling comes up; its outer child and
            // the demoted node turn black.
            &&& res.key == s0.key
            &&& res.balance == r0.balance
            &&& get_link(res, d.reflect()) is Some
            &&& *get_link(res, d.reflect()).unwrap() == (TreeNode {
                balance: black_state(),
                ..*get_link(*s0, d.reflect()).unwrap()
            })
            &&& get_link(res, d) is Some
            &&& {
                let p2 = get_link(res, d).unwrap();
                &&& p2.key == r0.key
                &&& p2.balance == black_state()
                &&& get_link(*p2, d) == get_link(r0, d)
                &&& get_link(*p2, d.reflect()) == get_link(*s0, d)
                &&& node_caches(*p2)
            }
        } else {
            // Double rotation: the sibling's inner child comes up; the
            // sibling and the demoted node turn black.
            get_link(*s0, d) is Some && {
                let x0 = get_link(*s0, d).unwrap();
                &&& res.key == x0.key
                &&& res.balance == r0.balance
                &&& get_link(res, d.reflect()) is Some
                &&& get_link(res, d) is Some
                &&& {
                    let cn = get_link(res, d.reflect()).unwrap();
                    &&& cn.key == s0.key
                    &&& cn.balance == black_state()
                    &&& get_link(*cn, d.reflect()) == get_link(*s0, d.reflect())
                    &&& get_link(*cn, d) == get_link(*x0, d.reflect())
                    &&& node_caches(*cn)
                }
                &&& {
                    let rn = get_link(res, d).unwrap();
                    &&& rn.key == r0.key
                    &&& rn.balance == black_state()
                    &&& get_link(*rn, d.reflect()) == get_link(*x0, d)
                    &&& get_link(*rn, d) == get_link(r0, d)
                    &&& node_caches(*rn)
                }
            }
        }
    }
}

/// Red-Black rebalance step after a deletion, at one ancestor of the
/// removed node.
///
/// `xpath` is the side of this node whose subtree is one black node short.
/// A red node at the top of that subtree absorbs the deficit by turning
/// black. Otherwise the sibling decides: a black sibling either donates
/// through a rotation when it has a red child, or turns red, which lifts
/// the deficit one level up; a red sibling is rotated up, and the walk
/// re-anchors at the child on the deletion side (now under a black sibling
/// and a red parent, which one more step there settles).
#[verifier::rlimit(60)]
pub fn rebalance_delete(node: Box<TreeNode>, xpath: TreePath) -> (r: (Box<TreeNode>, NodeOffset))
    requires
        bst_of(Some(node)),
        caches_of(Some(node)),
        state_of(BalancePolicy::RedBlack, Some(node)),
        rb_of(get_link(*node, xpath)),
        rb_of(get_link(*node, xpath.reflect())),
        bh_of(get_link(*node, xpath)) + 1 == bh_of(get_link(*node, xpath.reflect())),
        red_node(*node) ==> !is_red(get_link(*node, xpath.reflect())),
    ensures
        bst_of(Some(r.0)),
        caches_of(Some(r.0)),
        state_of(BalancePolicy::RedBlack, Some(r.0)),
        keys_of(Some(r.0)) == keys_of(Some(node)),
        red_node(*node) ==> r.1 is Root,
        r.1 is Root ==> rb_of(Some(r.0)) && bh_of(Some(r.0)) == bh_of(
            get_link(*node, xpath.reflect()),
        ) + (if red_node(*node) {
            0nat
        } else {
            1nat
        }) && (red_node(*r.0) ==> red_node(*node)),
        r.1 is Parent ==> rb_of(Some(r.0)) && bh_of(Some(r.0)) + 1 == bh_of(
            get_link(*node, xpath.reflect()),
        ) + (if red_node(*node) {
            0nat
        } else {
            1nat
        }) && !red_node(*r.0),
        r.1 is Child ==> {
            &&& r.1 == NodeOffset::Child(xpath)
            &&& !red_node(*r.0)
            &&& !red_node(*node)
            &&& is_red(get_link(*node, xpath.reflect()))
            &&& get_link(*r.0, xpath) is Some
            &&& rb_of(get_link(*r.0, xpath.reflect()))
            &&& {
                let c = *get_link(*r.0, xpath).unwrap();
                &&& red_node(c)
                &&& rb_of(get_link(c, xpath))
                &&& rb_of(get_link(c, xpath.reflect()))
                &&& bh_of(get_link(c, xpath)) + 1 == bh_of(get_link(c, xpath.reflect()))
                &&& !is_red(get_link(c, xpath.reflect()))
                &&& bh_of(get_link(*r.0, xpath.reflect())) == bh_of(get_link(c, xpath.reflect()))
            }
            &&& bh_of(get_link(*r.0, xpath.reflect())) == bh_of(get_link(*node, xpath.reflect()))
        },
        // The case table, deciding on the colors of the short side's top
        // node, the sibling, and the sibling's children: a red top absorbs
        // the deficit by one recolor; a red sibling is rotated up and the
        // walk re-anchors below; a black sibling donates through the
        // rotation when it has a red child, and otherwise turns red,
        // leaving a red node to swallow the deficit and a black one to
        // pass it up.
        ({
            let cd = get_link(*node, xpath);
            let s = get_link(*node, xpath.reflect());
            &&& (is_red(cd) ==> {
                &&& r.1 is Root
                &&& get_link(*r.0, xpath) is Some
                &&& *get_link(*r.0, xpath).unwrap() == (TreeNode {
                    balance: black_state(),
                    ..*get_link(*node, xpath).unwrap()
                })
                &&& get_link(*r.0, xpath.reflect()) == get_link(*node, xpath.reflect())
                &&& *r.0 == (TreeNode { left: r.0.left, right: r.0.right, ..*node })
            })
            &&& (!is_red(cd) && is_red(s) ==> r.1 == NodeOffset::Child(xpath)
                && sibling_rotation_frame(*node, xpath, *r.0))
            &&& (!is_red(cd) && !is_red(s) && (is_red(get_link(*s.unwrap(), xpath.reflect()))
                || is_red(get_link(*s.unwrap(), xpath))) ==> r.1 is Root && donation_frame(
                *node,
                xpath,
                *r.0,
            ))
            &&& (!is_red(cd) && !is_red(s) && !is_red(get_link(*s.unwrap(), xpath.reflect()))
                && !is_red(get_link(*s.unwrap(), xpath)) ==> {
                &&& get_link(*r.0, xpath) == get_link(*node, xpath)
                &&& get_link(*r.0, xpath.reflect()) is Some
                &&& *get_link(*r.0, xpath.reflect()).unwrap() == (TreeNode {
                    balance: red_state(),
                    ..*get_link(*node, xpath.reflect()).unwrap()
                })
                &&& r.0.key == node.key
                &&& r.0.height == node.height
                &&& r.0.leaves == node.leaves
                &&& (red_node(*node) ==> r.0.balance == black_state() && r.1 is Root)
                &&& (!red_node(*node) ==> r.0.balance == node.balance && r.1 is Parent)
            })
        }),
{
    let d = xpath;
    let ghost r0 = *node;
    proof {
        lemma_node_bridge(node);
        lemma_rb_bridge(node);
    }
    // A red node at the top of the short subtree absorbs the deficit.
    if link_color(node.get_child(d)) == RBColor::Red {
        let mut n = node;
        set_child_color(&mut *n, d, RBColor::Black);
        proof {
            lemma_recolor(get_link(r0, d).unwrap(), get_link(*n, d).unwrap());
            lemma_rb_bridge(get_link(r0, d).unwrap());
            lemma_rb_bridge(get_link(*n, d).unwrap());
            lemma_node_bridge(n);
            lemma_rb_bridge(n);
            assert(node_bst(*n));
            assert(node_caches(*n));
            assert(keys_of(Some(n)) =~= keys_of(Some(node)));
        }
        return (n, NodeOffset::Root);
    }
    proof {
        lemma_black_is_some(get_link(r0, d.reflect()));
        lemma_rb_bridge(get_link(r0, d.reflect()).unwrap());
        lemma_node_bridge(get_link(r0, d.reflect()).unwrap());
    }
    if link_color(node.get_child(d.reflect())) == RBColor::Red {
        // Red sibling: rotate it up and recolor; the walk re-anchors at the
        // child on the deletion side, which now sits under a black sibling
        // and a red parent.
        let mut m = bst_rotate(node, d.reflect());
        let ghost m0: Box<TreeNode> = m;
        set_color(&mut *m, RBColor::Black);
        set_child_color(&mut *m, d, RBColor::Red);
        let ghost m1: Box<TreeNode> = m;
        proof {
            lemma_node_bridge(m0);
            lemma_rb_bridge(m0);
            lemma_node_bridge(m1);
            lemma_rb_bridge(m1);
            lemma_recolor(get_link(*m0, d).unwrap(), get_link(*m1, d).unwrap());
            lemma_node_bridge(get_link(*m0, d).unwrap());
            lemma_node_bridge(get_link(*m1, d).unwrap());
            lemma_rb_bridge(get_link(*m0, d).unwrap());
            lemma_rb_bridge(get_link(*m1, d).unwrap());
            assert(node_bst(*m1));
            assert(node_caches(*m1));
            assert(keys_of(Some(m1)) =~= keys_of(Some(node)));
            assert(sibling_rotation_frame(r0, d, *m1));
        }
        (m, NodeOffset::Child(d))
    } else {
        rebalance_black_sibling(node, d)
    }
}

/// The black-sibling cases of the deletion fixup: the sibling donates a
/// black node through a rotation when it has a red child (preferring the
/// in-line child, which needs one rotation instead of two), or turns red,
/// pushing the deficit to this node; a red node swallows it, a black one
/// hands it to its parent.
#[verifier::rlimit(60)]
fn rebalance_black_sibling(node: Box<TreeNode>, xpath: TreePath) -> (r: (Box<TreeNode>, NodeOffset))
    requires
        bst_of(Some(node)),
        caches_of(Some(node)),
        state_of(BalancePolicy::RedBlack, Some(node)),
        rb_of(get_link(*node, xpath)),
        rb_of(get_link(*node, xpath.reflect())),
        bh_of(get_link(*node, xpath)) + 1 == bh_of(get_link(*node, xpath.reflect())),
        !is_red(get_link(*node, xpath)),
        !is_red(get_link(*node, xpath.reflect())),
        get_link(*node, xpath.reflect()) is Some,
    ensures
        bst_of(Some(r.0)),
        caches_of(Some(r.0)),
        state_of(BalancePolicy::RedBlack, Some(r.0)),
        keys_of(Some(r.0)) == keys_of(Some(node)),
        rb_of(Some(r.0)),
        r.1 is Root || r.1 is Parent,
        r.1 is Root ==> bh_of(Some(r.0)) == bh_of(get_link(*node, xpath.reflect())) + (
        if red_node(*node) {
            0nat
        } else {
            1nat
        }) && (red_node(*r.0) ==> red_node(*node)),
        r.1 is Parent ==> bh_of(Some(r.0)) + 1 == bh_of(get_link(*node, xpath.reflect())) + (
        if red_node(*node) {
            0nat
        } else {
            1nat
        }) && !red_node(*r.0),
        red_node(*node) ==> r.1 is Root,
        ({
            let s = get_link(*node, xpath.reflect());
            &&& (is_red(get_link(*s.unwrap(), xpath.reflect())) || is_red(
                get_link(*s.unwrap(), xpath),
            ) ==> r.1 is Root && donation_frame(*node, xpath, *r.0))
            &&& (!is_red(get_link(*s.unwrap(), xpath.reflect())) && !is_red(
                get_link(*s.unwrap(), xpath),
            ) ==> {
                &&& get_link(*r.0, xpath) == get_link(*node, xpath)
                &&& get_link(*r.0, xpath.reflect()) is Some
                &&& *get_link(*r.0, xpath.reflect()).unwrap() == (TreeNode {
                    balance: red_state(),
                    ..*get_link(*node, xpath.reflect()).unwrap()
                })
                &&& r.0.key == node.key
                &&& r.0.height == node.height
                &&& r.0.leaves == node.leaves
                &&& (red_node(*node) ==> r.0.balance == black_state() && r.1 is Root)
                &&& (!red_node(*node) ==> r.0.balance == node.balance && r.1 is Parent)
            })
        }),
{
    let d = xpath;
    let sd = d.reflect();
    let ghost r0 = *node;
    proof {
        lemma_node_bridge(node);
        lemma_rb_bridge(node);
        lemma_node_bridge(get_link(r0, sd).unwrap());
        lemma_rb_bridge(get_link(r0, sd).unwrap());
    }
    let my_col = node_color(&node);
    let outer_col = link_color(node.get_child(sd).as_ref().unwrap().get_child(sd));
    let elbow_col = link_color(node.get_child(sd).as_ref().unwrap().get_child(d));
    if outer_col == RBColor::Red || elbow_col == RBColor::Red {
        // The sibling has a red child to donate: rotate it over this node,
        // give the new top the old top's color, and make its children
        // black; every path regains its black count.
        let vpath = if outer_col == RBColor::Red {
            sd
        } else {
            d
        };
        proof {
            let s0 = *get_link(r0, sd).unwrap();
            if vpath != sd {
                lemma_rb_bridge(get_link(s0, d).unwrap());
                lemma_node_bridge(get_link(s0, d).unwrap());
            } else {
                lemma_rb_bridge(get_link(s0, sd).unwrap());
                lemma_node_bridge(get_link(s0, sd).unwrap());
            }
        }
        let mut res = bst_full_rotate(node, sd, vpath);
        let ghost m0: Box<TreeNode> = res;
        set_color(&mut *res, my_col);
        set_child_color(&mut *res, TreePath::Left, RBColor::Black);
        set_child_color(&mut *res, TreePath::Right, RBColor::Black);
        let ghost m1: Box<TreeNode> = res;
        proof {
            lemma_node_bridge(m0);
            lemma_rb_bridge(m0);
            lemma_node_bridge(m1);
            lemma_rb_bridge(m1);
            lemma_recolor(
                get_link(*m0, TreePath::Left).unwrap(),
                get_link(*m1, TreePath::Left).unwrap(),
            );
            lemma_recolor(
                get_link(*m0, TreePath::Right).unwrap(),
                get_link(*m1, TreePath::Right).unwrap(),
            );
            lemma_node_bridge(get_link(*m0, TreePath::Left).unwrap());
            lemma_node_bridge(get_link(*m0, TreePath::Right).unwrap());
            lemma_node_bridge(get_link(*m1, TreePath::Left).unwrap());
            lemma_node_bridge(get_link(*m1, TreePath::Right).unwrap());
            lemma_rb_bridge(get_link(*m0, TreePath::Left).unwrap());
            lemma_rb_bridge(get_link(*m0, TreePath::Right).unwrap());
            lemma_rb_bridge(get_link(*m1, TreePath::Left).unwrap());
            lemma_rb_bridge(get_link(*m1, TreePath::Right).unwrap());
            assert(node_bst(*m1));
            assert(node_caches(*m1));
            assert(keys_of(Some(res)) =~= keys_of(Some(node)));
            assert(rb_of(Some(res)));
            assert(bh_of(Some(res)) == bh_of(get_link(r0, sd)) + (if red_node(r0) {
                0nat
            } else {
                1nat
            }));
            assert(vpath == delete_donation_path(r0, d));
            assert(donation_frame(r0, d, *m1));
        }
        (res, NodeOffset::Root)
    } else {
        // No red child to donate: the sibling turns red, which evens both
        // sides one black short; a red node absorbs the deficit, a black
        // one passes it up.
        let mut n = node;
        set_child_color(&mut *n, sd, RBColor::Red);
        proof {
            lemma_recolor(get_link(r0, sd).unwrap(), get_link(*n, sd).unwrap());
            lemma_rb_bridge(get_link(*n, sd).unwrap());
            lemma_node_bridge(get_link(*n, sd).unwrap());
            lemma_node_bridge(n);
            lemma_rb_bridge(n);
            assert(node_bst(*n));
            assert(node_caches(*n));
            assert(keys_of(Some(n)) =~= keys_of(Some(node)));
        }
        if my_col == RBColor::Red {
            set_color(&mut *n, RBColor::Black);
            proof {
                lemma_node_bridge(n);
                lemma_rb_bridge(n);
                assert(keys_of(Some(n)) =~= keys_of(Some(node)));
            }
            (n, NodeOffset::Root)
        } else {
            (n, NodeOffset::Parent)
        }
    }
}

} // verus!
