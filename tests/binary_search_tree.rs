use bst_heap::binary_search_tree::BinarySearchTree;

#[test]
fn empty_tree() {
    let bst = BinarySearchTree::<()>::new();
    assert_eq!(bst.item(), None);
    assert!(bst.left().is_none());
    assert!(bst.right().is_none());
    assert_eq!(bst.find(&()), None);
}

#[test]
fn items_not_in_the_tree_yield_none() {
    let bst = BinarySearchTree::new();
    let bst = bst.insert(1);
    assert_eq!(bst.find(&2), None)
}

#[test]
fn first_inserted_item_stays_at_the_root() {
    let bst = BinarySearchTree::new();
    let bst = bst.insert(1);
    let bst = bst.insert(2);
    assert_eq!(bst.item(), Some(&1));
}

#[test]
fn greater_item_becomes_right_child() {
    let bst = BinarySearchTree::new();
    let bst = bst.insert(1);
    let bst = bst.insert(2);
    assert_eq!(bst.right().unwrap().item(), Some(&2));
}

#[test]
fn lesser_item_becomes_left_child() {
    let bst = BinarySearchTree::new();
    let bst = bst.insert(2);
    let bst = bst.insert(1);
    assert_eq!(bst.left().unwrap().item(), Some(&1));
}

#[test]
fn equal_item_replaces_node() {
    let bst = BinarySearchTree::new();
    let bst = bst.insert(1);
    let bst = bst.insert(1);
    assert_eq!(bst.item(), Some(&1));
    assert!(bst.left().unwrap().item().is_none());
    assert!(bst.right().unwrap().item().is_none());
}

#[test]
fn can_lookup_left_and_right_children() {
    let bst = BinarySearchTree::new();
    let bst = bst.insert(2);
    let bst = bst.insert(1);
    let bst = bst.insert(3);
    assert_eq!(bst.find(&2), Some(&2));
    assert_eq!(bst.find(&1), Some(&1));
    assert_eq!(bst.find(&3), Some(&3));
}

#[test]
fn lookup_in_degenerate_tree() {
    let bst = BinarySearchTree::new();
    let bst = bst.insert(10);
    let bst = bst.insert(20);
    let bst = bst.insert(30);
    let bst = bst.insert(28);
    let bst = bst.insert(26);
    let bst = bst.insert(24);
    let bst = bst.insert(22);
    assert_eq!(bst.find(&22), Some(&22));
    assert_eq!(bst.find(&30), Some(&30));
    assert_eq!(bst.find(&20), Some(&20));
}

#[test]
fn delete_empty_tree() {
    let bst = BinarySearchTree::<()>::new();
    assert_eq!(bst.clone().delete(&()), None);
}

#[test]
fn delete_sole_root() {
    let empty = BinarySearchTree::new();
    let bst = empty.insert(42);
    assert_eq!(bst.delete(&42), Some(empty));
}

#[test]
fn delete_bigger_leaf() {
    let empty = BinarySearchTree::new();
    let root = empty.insert(1);
    let bst = root.insert(2);
    assert_eq!(bst.delete(&2), Some(root));
}

#[test]
fn delete_smaller_leaf() {
    let empty = BinarySearchTree::new();
    let root = empty.insert(2);
    let bst = root.insert(1);
    assert_eq!(bst.delete(&1), Some(root));
}

#[test]
fn delete_root_with_right_child() {
    let empty = BinarySearchTree::new();
    let root = empty.insert(1);
    let bst = root.insert(2);
    assert_eq!(bst.delete(&1), Some(BinarySearchTree::new().insert(2)));
}

#[test]
fn delete_root_with_left_child() {
    let empty = BinarySearchTree::new();
    let root = empty.insert(2);
    let bst = root.insert(1);
    assert_eq!(bst.delete(&2), Some(BinarySearchTree::new().insert(1)));
}

#[test]
fn delete_root_with_both_children() {
    let empty = BinarySearchTree::new();
    let bst = empty.insert(2);
    let bst = bst.insert(1);
    let bst = bst.insert(3);
    assert_eq!(
        bst.delete(&2),
        Some(BinarySearchTree::new().insert(3).insert(1))
    );
}

#[test]
fn delete_root_of_deep_tree() {
    let bst = BinarySearchTree::new()
        .insert(50)
        .insert(25)
        .insert(75)
        .insert(10)
        .insert(40)
        .insert(60)
        .insert(90);
    let actual = bst.delete(&50).unwrap();
    let expected = BinarySearchTree::new()
        .insert(60)
        .insert(25)
        .insert(75)
        .insert(10)
        .insert(40)
        .insert(90);
    assert_eq!(actual, expected);
}
