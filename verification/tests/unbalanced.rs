use balanced_bst::tree::{BalancePolicy, Tree};

#[test]
fn unbalanced_insert() {
    let mut tree = Tree::new(BalancePolicy::Unbalanced);

    tree.insert(40);
    tree.insert(50);
    tree.insert(60);
    assert_eq!(tree.height(), 3);
}

#[test]
fn unbalanced_delete() {
    let mut tree = Tree::new(BalancePolicy::Unbalanced);

    tree.insert(40);
    tree.insert(50);
    tree.insert(60);
    tree.insert(70);
    tree.delete(&40);
    assert_eq!(tree.height(), 3)
}

#[test]
fn unbalanced_keeps_insertion_shape() {
    // The baseline policy never rotates: an increasing run degrades to a
    // chain, yet the in-order sequence stays sorted.
    let mut tree = Tree::new(BalancePolicy::Unbalanced);
    for k in &[10, 20, 30, 40, 50] {
        tree.insert(*k);
    }
    assert_eq!(tree.height(), 5);
    assert_eq!(tree.leaves(), 1);
    assert_eq!(tree.inorder(), vec![10, 20, 30, 40, 50]);
}
