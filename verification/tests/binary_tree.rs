use flex_algo::binary_tree::BinaryNode;
use flex_algo::BinaryTree;

#[test]
fn test_binary_node() {
    let node = BinaryNode::new(1);
    println!("node: {:?}", node);
}

#[test]
fn test_binary_tree() {
    let mut tree = BinaryTree::new();
    let v = vec![Some(1), Some(2), Some(3), Some(4), Some(5), Some(6)];
    tree.insert(&v);
    println!("tree: {:?}", tree);
    println!("rows: {:?}", tree.preorder(0));
}

#[test]
fn test_binary_tree_none() {
    let mut tree = BinaryTree::new();
    let v = vec![Some(1), Some(2), Some(3), None, None, Some(4), Some(5), Some(6)];
    tree.insert(&v);
    println!("tree: {:?}", tree);
    println!("rows: {:?}", tree.preorder(0));
}

#[test]
fn test_binary_tree_depth() {
    let mut tree = BinaryTree::new();
    let v = vec![Some(1), Some(2), Some(3), None, None, Some(4), Some(5), Some(6)];
    tree.insert(&v);
    let depth = tree.depth();
    println!("depth: {}", depth);
    assert_eq!(depth, 4);
}

#[test]
fn test_binary_tree_level_order() {
    let mut tree = BinaryTree::new();
    let v = vec![Some(1), Some(2), Some(3), None, None, Some(4), Some(5), Some(6)];
    tree.insert(&v);
    let level_order = tree.level_order();
    println!("level order: {:?}", level_order);
    assert_eq!(level_order, vec![vec![1], vec![2, 3], vec![4, 5], vec![6]].to_vec());
}

#[test]
fn test_binary_tree_right_side_view() {
    let mut tree = BinaryTree::new();
    let v = vec![Some(1), Some(2), Some(3), None, None, Some(4), Some(5), Some(6)];
    tree.insert(&v);
    let mut res: Vec<i32> = Vec::new();
    tree.right_side_view(0, &mut res);
    println!("right side view: {:?}", res);
    assert_eq!(res, vec![1, 3, 5, 6]);
}

#[test]
fn test_binary_tree_left_side_view() {
    let mut tree = BinaryTree::new();
    let v = vec![Some(1), Some(2), Some(3), None, None, Some(4), Some(5), Some(6)];
    tree.insert(&v);
    let mut res: Vec<i32> = Vec::new();
    tree.left_side_view(0, &mut res);
    println!("left side view: {:?}", res);
    assert_eq!(res, vec![1, 2, 4, 6]);
}

#[test]
fn test_binary_tree_insert_as_complete() {
    let mut tree = BinaryTree::new();
    let v = vec![1, 2, 3, 4, 5, 6, 7];
    tree.insert_as_complete(&v);
    println!("rows: {:?}", tree.preorder(0));
}

#[test]
fn test_binary_tree_count_nodes() {
    let mut tree = BinaryTree::new();
    let v = vec![1, 2, 3, 4, 5, 6, 7];
    tree.insert_as_complete(&v);
    let count = tree.count_nodes();
    println!("count: {}", count);
    assert_eq!(count, 7);
}

#[test]
fn test_count_nodes_partial_last_level() {
    let mut tree = BinaryTree::new();
    let v = vec![1, 2, 3, 4, 5];
    tree.insert_as_complete(&v);
    assert_eq!(tree.count_nodes(), 5);
}

#[test]
fn test_count_nodes_single() {
    let mut tree = BinaryTree::new();
    tree.insert_as_complete(&vec![42]);
    assert_eq!(tree.count_nodes(), 1);
}

#[test]
fn test_binary_tree_height() {
    let mut tree = BinaryTree::new();
    let v = vec![1, 2, 3, 4, 5, 6, 7];
    tree.insert_as_complete(&v);
    assert_eq!(tree.height(), 2);
}

#[test]
fn test_empty_tree_level_order() {
    let tree: BinaryTree<i32> = BinaryTree::new();
    let level_order = tree.level_order();
    assert_eq!(level_order, Vec::<Vec<i32>>::new());
}
