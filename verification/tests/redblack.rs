use balanced_bst::tree::{BalancePolicy, Tree};

#[test]
fn insert_unbalanced() {
    let mut tree = Tree::new(BalancePolicy::RedBlack);

    tree.insert(40);
    tree.insert(50);
    tree.insert(60);
    assert_eq!(tree.height(), 2)
}

#[test]
fn insert_skewed() {
    let mut tree = Tree::new(BalancePolicy::RedBlack);

    tree.insert(40);
    tree.insert(50);
    tree.insert(60);
    tree.insert(70);
    tree.insert(80);
    tree.insert(90);
    assert_eq!(tree.height(), 4)
}

#[test]
fn insert_recolor_rebalance() {
    let mut tree = Tree::new(BalancePolicy::RedBlack);

    tree.insert(40);
    tree.insert(50);
    tree.insert(60);
    tree.insert(70);
    tree.insert(90);
    tree.insert(80);
    tree.insert(100);
    tree.insert(110);
    assert_eq!(tree.height(), 4)
}

#[test]
fn delete_red() {
    let mut tree = Tree::new(BalancePolicy::RedBlack);

    tree.insert(40);
    tree.insert(50);
    tree.insert(60);
    tree.insert(70);
    tree.delete(&40);
    assert_eq!(tree.height(), 2)
}

#[test]
fn delete_recolor() {
    let mut tree = Tree::new(BalancePolicy::RedBlack);

    tree.insert(40);
    tree.insert(50);
    tree.insert(60);
    tree.insert(70);
    tree.insert(90);
    tree.insert(80);
    tree.delete(&90);
    tree.delete(&80);
    assert_eq!(tree.height(), 3)
}

#[test]
fn delete_child_red() {
    let mut tree = Tree::new(BalancePolicy::RedBlack);

    tree.insert(40);
    tree.insert(50);
    tree.insert(60);
    tree.insert(70);
    tree.insert(90);
    tree.insert(80);
    tree.delete(&90);
    tree.delete(&80);
    tree.delete(&40);
    assert_eq!(tree.height(), 2)
}

#[test]
fn rb_insert_scenario_invariants() {
    // Insert 40, 65, 55, 57, 58, 75, 60, 59 in order: the Red-Black
    // invariants (black root, no red-red, equal black counts) hold after
    // every step and the final height stays within 4.
    let mut tree = Tree::new(BalancePolicy::RedBlack);
    let keys = [40, 65, 55, 57, 58, 75, 60, 59];
    for k in &keys {
        tree.insert(*k);
        assert!(tree.is_red_black_valid());
    }
    assert!(tree.height() <= 4);
    assert_eq!(tree.inorder(), vec![40, 55, 57, 58, 59, 60, 65, 75]);
}

#[test]
fn rb_delete_cascade_keys() {
    // Build from 40, 50, 60, 70, 90, 80, then delete 90, 80, 40 in turn:
    // after each deletion the Red-Black invariants hold and exactly the
    // expected keys remain.
    let mut tree = Tree::new(BalancePolicy::RedBlack);
    for k in &[40, 50, 60, 70, 90, 80] {
        tree.insert(*k);
    }
    assert!(tree.is_red_black_valid());

    assert_eq!(tree.delete(&90), Some(90));
    assert!(tree.is_red_black_valid());
    assert_eq!(tree.inorder(), vec![40, 50, 60, 70, 80]);

    assert_eq!(tree.delete(&80), Some(80));
    assert!(tree.is_red_black_valid());
    assert_eq!(tree.inorder(), vec![40, 50, 60, 70]);

    assert_eq!(tree.delete(&40), Some(40));
    assert!(tree.is_red_black_valid());
    assert_eq!(tree.inorder(), vec![50, 60, 70]);
    assert!(!tree.search(&40));
    assert!(tree.search(&50));
}
