use balanced_bst::tree::{BalancePolicy, Tree};

#[test]
fn avl_insert() {
    let mut tree = Tree::new(BalancePolicy::Avl);

    tree.insert(40);
    tree.insert(50);
    tree.insert(60);
    assert_eq!(tree.height(), 2)
}

#[test]
fn avl_delete() {
    let mut tree = Tree::new(BalancePolicy::Avl);

    tree.insert(40);
    tree.insert(50);
    tree.insert(60);
    tree.insert(70);
    tree.delete(&40);
    assert_eq!(tree.height(), 2)
}

#[test]
fn avl_single_rotation_scenario() {
    // Inserting an increasing run forces a single rotation at the third
    // insert; the height settles at 2 and the tree stays height-balanced.
    let mut tree = Tree::new(BalancePolicy::Avl);
    tree.insert(40);
    assert_eq!(tree.height(), 1);
    tree.insert(50);
    assert_eq!(tree.height(), 2);
    tree.insert(60);
    assert_eq!(tree.height(), 2);
    assert!(tree.is_height_balanced());
    assert_eq!(tree.inorder(), vec![40, 50, 60]);
}

#[test]
fn avl_stays_balanced_through_mixed_operations() {
    let mut tree = Tree::new(BalancePolicy::Avl);
    let keys = [40, 65, 55, 57, 58, 75, 60, 59];
    for k in &keys {
        tree.insert(*k);
        assert!(tree.is_height_balanced());
    }
    assert_eq!(tree.delete(&55), Some(55));
    assert!(tree.is_height_balanced());
    assert_eq!(tree.delete(&40), Some(40));
    assert!(tree.is_height_balanced());
    assert_eq!(tree.inorder(), vec![57, 58, 59, 60, 65, 75]);
}

#[test]
fn avl_height_stays_logarithmic() {
    // 32 increasing inserts into an AVL tree: a plain binary search tree
    // would reach height 32, an AVL tree stays at 6.
    let mut tree = Tree::new(BalancePolicy::Avl);
    let mut k: u32 = 1;
    while k <= 32 {
        tree.insert(k);
        k += 1;
    }
    assert!(tree.is_height_balanced());
    assert_eq!(tree.height(), 6);
    assert_eq!(tree.leaves(), 16);
}
