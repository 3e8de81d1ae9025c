use balanced_bst::tree::{BalancePolicy, Tree, TreePath};

#[test]
fn manual_rb_check_delete() {
    let nums = [40, 50, 60, 70, 90, 80];
    let mut tree = Tree::new(BalancePolicy::RedBlack);

    for num in &nums {
        tree.insert(*num);
    }
    assert_eq!(tree.delete(&90), Some(90));
    assert_eq!(tree.delete(&80), Some(80));
    assert_eq!(tree.delete(&40), Some(40));
    println!("{:#?}", tree);
}

#[test]
fn reflect_flips_direction() {
    assert_eq!(TreePath::Left.reflect(), TreePath::Right);
    assert_eq!(TreePath::Right.reflect(), TreePath::Left);
}

#[test]
fn empty_tree_operations() {
    let mut tree = Tree::new(BalancePolicy::Avl);
    assert!(tree.is_empty());
    assert_eq!(tree.height(), 0);
    assert_eq!(tree.leaves(), 0);
    assert!(!tree.search(&2));
    assert_eq!(tree.delete(&2), None);
    assert!(tree.is_empty());
    assert_eq!(tree.inorder(), Vec::<u32>::new());
}

#[test]
fn insert_search_delete_round_trip() {
    // Inserting a key and deleting it again leaves the key set as it was
    // without the key, and the policy's invariant holds throughout.
    let mut tree = Tree::new(BalancePolicy::RedBlack);
    for k in &[8, 3, 10, 1, 6] {
        tree.insert(*k);
    }
    let before = tree.inorder();
    tree.insert(7);
    assert!(tree.search(&7));
    assert!(tree.is_red_black_valid());
    assert_eq!(tree.delete(&7), Some(7));
    assert!(!tree.search(&7));
    assert!(tree.is_red_black_valid());
    assert_eq!(tree.inorder(), before);
}

#[test]
fn absent_delete_changes_nothing() {
    // Deleting a key that is not present reports "not found" and leaves
    // height, leaf count, and the in-order sequence untouched.
    let mut tree = Tree::new(BalancePolicy::Avl);
    for k in &[40, 20, 60, 10, 30] {
        tree.insert(*k);
    }
    let height = tree.height();
    let leaves = tree.leaves();
    let inorder = tree.inorder();
    assert_eq!(tree.delete(&25), None);
    assert_eq!(tree.height(), height);
    assert_eq!(tree.leaves(), leaves);
    assert_eq!(tree.inorder(), inorder);
}

#[test]
fn duplicate_insert_is_a_no_op() {
    let mut tree = Tree::new(BalancePolicy::RedBlack);
    for k in &[5, 2, 8] {
        tree.insert(*k);
    }
    let inorder = tree.inorder();
    let height = tree.height();
    tree.insert(2);
    assert_eq!(tree.inorder(), inorder);
    assert_eq!(tree.height(), height);
}

#[test]
fn inorder_is_strictly_increasing() {
    let mut tree = Tree::new(BalancePolicy::RedBlack);
    for k in &[31, 4, 15, 9, 26, 53, 58, 97, 93, 23, 84, 62] {
        tree.insert(*k);
    }
    tree.delete(&15);
    tree.delete(&84);
    let v = tree.inorder();
    let mut i = 1;
    while i < v.len() {
        assert!(v[i - 1] < v[i]);
        i += 1;
    }
    assert_eq!(v.len(), 10);
}

#[test]
fn leaves_counts_childless_nodes() {
    let mut tree = Tree::new(BalancePolicy::Avl);
    tree.insert(2);
    assert_eq!(tree.leaves(), 1);
    tree.insert(3);
    assert_eq!(tree.leaves(), 1);
    tree.insert(1);
    assert_eq!(tree.leaves(), 2);
    tree.clear();
    assert_eq!(tree.leaves(), 0);
    assert_eq!(tree.height(), 0);
    assert!(tree.is_empty());
}

#[test]
fn policy_is_kept_for_the_tree_lifetime() {
    let mut tree = Tree::new(BalancePolicy::Unbalanced);
    tree.insert(1);
    tree.clear();
    assert!(matches!(tree.policy(), BalancePolicy::Unbalanced));
}
