use arena_tree::Tree;

#[test]
fn test_empty_bst() {
    let tree = Tree::empty();
    assert!(tree.is_bst(), "Empty tree is a BST");
}

#[test]
fn test_single_node_bst() {
    let tree = Tree::with_root(10);
    assert!(tree.is_bst(), "A tree with one node is a BST");
}

#[test]
fn test_valid_bst() {
    let mut tree = Tree::with_root(10);
    tree.add_node(0, 4, true);
    tree.add_node(0, 14, false);
    tree.add_node(1, 2, true);
    tree.add_node(1, 8, false);
    tree.add_node(2, 12, true);
    tree.add_node(2, 20, false);

    assert!(tree.is_bst(), "This should be a BST");
}

#[test]
fn test_invalid_bst_left_subtree() {
    let mut tree = Tree::with_root(10);
    tree.add_node(0, 5, true);
    tree.add_node(1, 30, false);

    assert!(
        !tree.is_bst(),
        "30 is dx child of 5 so 30 is in sx subtree => invalid because 30 > 10 (root) and is in sx subtree"
    );
}

#[test]
fn test_bst_with_duplicate_node_values() {
    let mut tree = Tree::with_root(10);
    tree.add_node(0, 10, true);

    assert!(
        !tree.is_bst(),
        "A tree with duplicate node values is not a BST"
    );
}

#[test]
fn test_valid_bst_big() {
    let mut tree = Tree::with_root(8);
    tree.add_node(0, 3, true);
    tree.add_node(0, 10, false);
    tree.add_node(1, 1, true);
    tree.add_node(1, 6, false);
    tree.add_node(2, 9, true);
    tree.add_node(2, 14, false);
    tree.add_node(5, 7, true);
    tree.add_node(6, 13, true);

    assert!(
        !tree.is_bst(),
        "This is invalid, 7 is less than 8 but 7 is child of 9 (dx subtree)"
    );
}

#[test]
fn test_linear_bst() {
    let mut tree = Tree::with_root(10);
    tree.add_node(0, 9, true);
    tree.add_node(1, 7, true);

    assert!(tree.is_bst(), "This is a valid BST");
}

#[test]
fn test_mps_no_node() {
    let tree = Tree::empty();
    assert_eq!(tree.max_path_sum(), 0);
}

#[test]
fn test_mps_single_node() {
    let tree = Tree::with_root(10);
    assert_eq!(tree.max_path_sum(), 10);
}

#[test]
fn test_mps_single_path() {
    let mut tree = Tree::with_root(5);
    tree.add_node(0, 4, true);
    tree.add_node(0, 7, false);
    assert_eq!(tree.max_path_sum(), 16); // 5 + 4 + 7 = 16
}

#[test]
fn test_mps_linear_tree() {
    let mut tree = Tree::with_root(10);
    tree.add_node(0, 8, true);
    tree.add_node(1, 7, true);
    tree.add_node(2, 3, true);
    assert_eq!(tree.max_path_sum(), 28); // 10 + 8 + 7 + 3 = 28
}

#[test]
fn test_mps_piramid_tree_one() {
    let mut tree = Tree::with_root(10);
    tree.add_node(0, 2, true);
    tree.add_node(0, 21, false);

    tree.add_node(1, 20, true);
    tree.add_node(2, 3, true);
    tree.add_node(2, 40, false);
    assert_eq!(tree.max_path_sum(), 93); // 20 + 2 + 10 + 21 + 40 = 93
}

#[test]
fn test_mps_piramid_tree_two() {
    // Remove 40
    let mut tree = Tree::with_root(10);
    tree.add_node(0, 2, true);
    tree.add_node(0, 21, false);

    tree.add_node(1, 20, true);
    tree.add_node(2, 3, true);
    assert_eq!(tree.max_path_sum(), 56); // 20 + 2 + 10 + 21 + 3 = 56
}
