use dbgcore::avl::AVLTree;

#[test]
fn test_empty_tree() {
    let tree: AVLTree<i32> = AVLTree::new();
    let expected: Vec<&i32> = tree.iter();
    assert_eq!(expected.len(), 0);
}

#[test]
fn test_single_insertion() {
    let mut tree = AVLTree::new();
    tree.insert(10);
    let result = tree.iter();
    assert_eq!(result, vec![&10]);
}

#[test]
fn test_multiple_insertions() {
    let mut tree = AVLTree::new();
    tree.insert(10);
    tree.insert(20);
    tree.insert(5);
    tree.insert(6);
    tree.insert(15);

    let result = tree.iter();
    assert_eq!(result, vec![&5, &6, &10, &15, &20]);
}

#[test]
fn test_insert_duplicates() {
    let mut tree = AVLTree::new();
    tree.insert(10);
    tree.insert(10); // duplicate insertion
    tree.insert(20);

    let result = tree.iter();
    assert_eq!(result, vec![&10, &20]);
}

#[test]
fn test_balanced_tree_after_insertions() {
    let mut tree = AVLTree::new();
    tree.insert(10);
    tree.insert(20);
    tree.insert(5);
    tree.insert(6); // this will trigger a rotation (Left-Right case)

    let result = tree.iter();
    assert_eq!(result, vec![&5, &6, &10, &20]);
}

#[test]
fn test_left_rotation() {
    let mut tree = AVLTree::new();
    tree.insert(10);
    tree.insert(20);
    tree.insert(30); // this will trigger a left rotation

    let result = tree.iter();
    assert_eq!(result, vec![&10, &20, &30]);
}

#[test]
fn test_right_rotation() {
    let mut tree = AVLTree::new();
    tree.insert(30);
    tree.insert(20);
    tree.insert(10); // this will trigger a right rotation

    let result = tree.iter();
    assert_eq!(result, vec![&10, &20, &30]);
}

#[test]
fn test_left_right_rotation() {
    let mut tree = AVLTree::new();
    tree.insert(30);
    tree.insert(10);
    tree.insert(20); // this will trigger a left-right rotation

    let result = tree.iter();
    assert_eq!(result, vec![&10, &20, &30]);
}

#[test]
fn test_right_left_rotation() {
    let mut tree = AVLTree::new();
    tree.insert(10);
    tree.insert(30);
    tree.insert(20); // this will trigger a right-left rotation

    let result = tree.iter();
    assert_eq!(result, vec![&10, &20, &30]);
}

#[test]
fn test_insertion_order_does_not_affect_result() {
    let mut tree1 = AVLTree::new();
    tree1.insert(10);
    tree1.insert(20);
    tree1.insert(5);

    let mut tree2 = AVLTree::new();
    tree2.insert(5);
    tree2.insert(20);
    tree2.insert(10);

    // both trees should have the same structure (sorted result after traversal)
    let result1 = tree1.iter();
    let result2 = tree2.iter();
    assert_eq!(result1, result2);
}

#[test]
fn test_large_input() {
    let mut tree = AVLTree::new();

    for i in 1..=1000 {
        tree.insert(i);
    }

    let result: Vec<i32> = tree.iter().into_iter().map(|&i| i).collect();
    let expected: Vec<i32> = (1..=1000).collect();

    assert_eq!(result, expected);
}

#[test]
fn test_get_existing_value() {
    let mut tree = AVLTree::new();
    tree.insert(10);
    tree.insert(20);
    tree.insert(5);
    tree.insert(15);

    assert_eq!(tree.get_by(|x| 10.cmp(x)), Some(&10));
    assert_eq!(tree.get_by(|x| 5.cmp(x)), Some(&5));
    assert_eq!(tree.get_by(|x| 20.cmp(x)), Some(&20));
    assert_eq!(tree.get_by(|x| 15.cmp(x)), Some(&15));
}

#[test]
fn test_get_non_existing_value() {
    let mut tree = AVLTree::new();
    tree.insert(10);
    tree.insert(20);
    tree.insert(5);

    assert_eq!(tree.get_by(|x| 15.cmp(x)), None);
    assert_eq!(tree.get_by(|x| 30.cmp(x)), None);
    assert_eq!(tree.get_by(|x| 100.cmp(x)), None);
}

#[test]
fn test_get_empty_tree() {
    let tree: AVLTree<i32> = AVLTree::new();

    assert_eq!(tree.get_by(|x| 10.cmp(x)), None);
    assert_eq!(tree.get_by(|x| 100.cmp(x)), None);
}

#[test]
fn test_get_after_insertions_and_rotations() {
    let mut tree = AVLTree::new();
    tree.insert(10);
    tree.insert(20);
    tree.insert(30); // this insertion should trigger a rotation

    assert_eq!(tree.get_by(|x| 10.cmp(x)), Some(&10));
    assert_eq!(tree.get_by(|x| 20.cmp(x)), Some(&20));
    assert_eq!(tree.get_by(|x| 30.cmp(x)), Some(&30));
}
