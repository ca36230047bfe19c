use flex_algo::BST;

#[test]
fn test_bst_insert() {
    let mut bst = BST::new();
    bst.insert(3);
    bst.insert(2);
    bst.insert(1);
}

#[test]
fn test_bst_is_valid() {
    let mut bst = BST::new();
    bst.insert(3);
    bst.insert(2);
    bst.insert(1);

    let is_valid = bst.is_valid(i32::MIN, i32::MAX);
    assert_eq!(is_valid, true);
}

#[test]
fn test_bst_search() {
    let mut bst = BST::new();
    bst.insert(3);
    bst.insert(2);
    bst.insert(1);
    let none = bst.search(5);
    assert_eq!(none, None);

    let found = bst.search(2);
    assert_eq!(found, Some(2));
}

#[test]
fn test_bst_insert_duplicate() {
    let mut bst = BST::new();
    assert_eq!(bst.insert(3), true);
    assert_eq!(bst.insert(3), false);
    assert_eq!(bst.insert(2), true);
}
