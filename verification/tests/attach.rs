use arena_tree::Tree;

#[test]
fn test_add_node_returns_fresh_indices() {
    let mut tree = Tree::with_root(1);
    let a = tree.add_node(0, 2, true);
    let b = tree.add_node(0, 3, false);
    let c = tree.add_node(a, 4, true);
    assert_eq!(a, 1);
    assert_eq!(b, 2);
    assert_eq!(c, 3);
}

#[test]
fn test_try_add_node_missing_parent() {
    let mut tree = Tree::with_root(7);
    // Index 1 does not exist yet: the attachment must be refused and the tree
    // must stay exactly as it was.
    assert_eq!(tree.try_add_node(1, 3, true), None);
    assert_eq!(tree.sum(), 7);
    assert_eq!(tree.max_path_sum(), 7);
    // The next successful attachment still gets index 1.
    assert_eq!(tree.try_add_node(0, 3, true), Some(1));
    assert_eq!(tree.sum(), 10);
}

#[test]
fn test_try_add_node_left_slot_occupied() {
    let mut tree = Tree::with_root(10);
    assert_eq!(tree.try_add_node(0, 4, true), Some(1));
    // The left slot of the root is taken: refused, existing child unchanged.
    assert_eq!(tree.try_add_node(0, 5, true), None);
    assert_eq!(tree.sum(), 14);
    assert!(tree.is_bst());
}

#[test]
fn test_try_add_node_right_slot_occupied() {
    let mut tree = Tree::with_root(10);
    assert_eq!(tree.try_add_node(0, 14, false), Some(1));
    assert_eq!(tree.try_add_node(0, 20, false), None);
    assert_eq!(tree.sum(), 24);
    assert!(tree.is_bst());
}

#[test]
fn test_sum_empty() {
    let tree = Tree::empty();
    assert_eq!(tree.sum(), 0);
}

#[test]
fn test_sum_single_node() {
    let tree = Tree::with_root(42);
    assert_eq!(tree.sum(), 42);
}

#[test]
fn test_sum_many_nodes() {
    let mut tree = Tree::with_root(10);
    tree.add_node(0, 4, true);
    tree.add_node(0, 14, false);
    tree.add_node(1, 2, true);
    tree.add_node(1, 8, false);
    tree.add_node(2, 12, true);
    tree.add_node(2, 20, false);
    assert_eq!(tree.sum(), 70); // 10 + 4 + 14 + 2 + 8 + 12 + 20
}

#[test]
fn test_get_min_get_max() {
    assert_eq!(Tree::get_min(3, 1, 2), 1);
    assert_eq!(Tree::get_min(1, 2, 3), 1);
    assert_eq!(Tree::get_min(5, 5, 5), 5);
    assert_eq!(Tree::get_max(3, 1, 2), 3);
    assert_eq!(Tree::get_max(1, 2, 3), 3);
    assert_eq!(Tree::get_max(0, u32::MAX, 7), u32::MAX);
}

#[test]
fn test_bst_boundary_keys() {
    // Keys at both ends of the domain must not confuse the check: a single
    // extreme key is a BST, and correctly ordered extreme keys stay one.
    let top = Tree::with_root(u32::MAX);
    assert!(top.is_bst());

    let bottom = Tree::with_root(0);
    assert!(bottom.is_bst());

    let mut high = Tree::with_root(u32::MAX);
    high.add_node(0, 0, true);
    assert!(high.is_bst());

    let mut low = Tree::with_root(0);
    low.add_node(0, u32::MAX, false);
    assert!(low.is_bst());

    // And a genuine violation at the boundary is still caught.
    let mut bad = Tree::with_root(0);
    bad.add_node(0, 1, true);
    assert!(!bad.is_bst());
}

#[test]
fn test_bst_duplicate_deeper_down() {
    // The duplicate of the root's key sits two levels below it.
    let mut tree = Tree::with_root(10);
    tree.add_node(0, 5, true);
    tree.add_node(1, 10, false);
    assert!(!tree.is_bst());
}

#[test]
fn test_mps_best_path_avoids_root() {
    // The best path (50 + 100 + 60 = 210) lies entirely inside the left
    // subtree and never touches the root.
    let mut tree = Tree::with_root(1);
    tree.add_node(0, 100, true);
    tree.add_node(1, 50, true);
    tree.add_node(1, 60, false);
    assert_eq!(tree.max_path_sum(), 210);
}

#[test]
fn test_mps_zero_keys() {
    let mut tree = Tree::with_root(0);
    tree.add_node(0, 0, true);
    tree.add_node(0, 0, false);
    assert_eq!(tree.max_path_sum(), 0);
}
