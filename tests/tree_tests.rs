use binary_tree::tree::{Node, NotFoundError, Tree, TreeIterator};

fn in_order<T: Ord + Clone>(tree: Tree<T>) -> Vec<T> {
    let mut iter = tree.into_iter();
    let mut out = Vec::new();
    while let Some(v) = iter.next() {
        out.push(v);
    }
    out
}

#[test]
fn test_insert() {
    let mut tree: Tree<String> = Tree::new();

    tree.insert("first".to_owned());
    tree.insert("second".to_owned());
    tree.insert("third".to_owned());

    assert_eq!(tree.size(), 3);
    assert_eq!(tree.search("first".to_string()), true);
    assert_eq!(tree.search("second".to_string()), true);
    assert_eq!(tree.search("third".to_string()), true);
}

#[test]
fn test_remove() {
    let mut tree = Tree::new();

    tree.insert(3);
    tree.insert(1);
    tree.insert(2);
    tree.insert(4);
    tree.insert(5);
    tree.insert(-5);
    tree.insert(80);

    // a leaf
    assert_eq!(tree.remove(5), Ok(6));
    // an inner node
    assert_eq!(tree.remove(1), Ok(5));
    // the root
    assert_eq!(tree.remove(3), Ok(4));

    assert_eq!(tree.search(1), false);
    assert_eq!(tree.search(2), true);
    assert_eq!(tree.search(3), false);
    assert_eq!(tree.search(4), true);
    assert_eq!(tree.search(5), false);
    assert_eq!(tree.search(-5), true);
    assert_eq!(tree.search(80), true);
    assert!(tree.remove(999).is_err());
}

#[test]
fn test_clone() {
    let mut original_tree = Tree::<String>::new();
    let mut copy_tree = Tree::<String>::new();
    assert_eq!(copy_tree.size(), 0);

    original_tree.insert(String::from("first"));
    original_tree.insert(String::from("second"));
    original_tree.insert(String::from("third"));
    original_tree.insert(String::from("fourth"));
    original_tree.insert(String::from("fifth"));
    original_tree.insert(String::from("sixth"));

    copy_tree = original_tree.clone();

    let mut originals = original_tree.into_iter();
    let mut copies = copy_tree.into_iter();
    while let (Some(original_string), Some(copy_string)) = (originals.next(), copies.next()) {
        assert_eq!(original_string, copy_string);
    }
}

#[test]
fn size_counts_every_insert() {
    let mut tree = Tree::new();
    assert_eq!(tree.size(), 0);
    let values = [7, 7, 3, 9, -1, 7, 0, 12];
    for (i, v) in values.iter().enumerate() {
        assert_eq!(tree.insert(*v), (i + 1) as u32);
        assert_eq!(tree.size(), (i + 1) as u32);
    }
}

#[test]
fn search_finds_inserted_values_only() {
    let mut tree = Tree::new();
    for v in [10, 5, 15, 5, 12, 20] {
        tree.insert(v);
    }
    for v in [10, 5, 15, 12, 20] {
        assert!(tree.search(v));
    }
    for v in [0, 6, 11, 13, 21, -10] {
        assert!(!tree.search(v));
    }
}

#[test]
fn search_in_empty_tree() {
    let tree: Tree<i32> = Tree::new();
    assert!(!tree.search(0));
}

#[test]
fn remove_present_value_then_absent() {
    let mut tree = Tree::new();
    for v in [8, 4, 12, 2, 6] {
        tree.insert(v);
    }
    assert_eq!(tree.remove(4), Ok(4));
    assert_eq!(tree.size(), 4);
    assert!(!tree.search(4));
    assert_eq!(tree.remove(4), Err(NotFoundError));
    assert_eq!(tree.size(), 4);
    assert_eq!(in_order(tree), vec![2, 6, 8, 12]);
}

#[test]
fn remove_absent_leaves_tree_unchanged() {
    let mut tree = Tree::new();
    for v in [5, 3, 9] {
        tree.insert(v);
    }
    assert_eq!(tree.remove(4), Err(NotFoundError));
    assert_eq!(tree.size(), 3);
    assert_eq!(in_order(tree), vec![3, 5, 9]);
}

#[test]
fn remove_from_empty_tree() {
    let mut tree: Tree<i32> = Tree::new();
    assert_eq!(tree.remove(1), Err(NotFoundError));
    assert_eq!(tree.size(), 0);
}

#[test]
fn remove_one_of_duplicates() {
    let mut tree = Tree::new();
    for v in [4, 4, 4] {
        tree.insert(v);
    }
    assert_eq!(tree.remove(4), Ok(2));
    assert!(tree.search(4));
    assert_eq!(in_order(tree), vec![4, 4]);
}

#[test]
fn remove_keeps_successor_right_subtree() {
    // 50 has two children; its successor 60 sits deep in the right subtree
    // and has a right child 65 of its own.
    let mut tree = Tree::new();
    for v in [50, 30, 80, 70, 60, 65, 90] {
        tree.insert(v);
    }
    assert_eq!(tree.remove(50), Ok(6));
    for v in [30, 60, 65, 70, 80, 90] {
        assert!(tree.search(v));
    }
    assert!(!tree.search(50));
    assert_eq!(in_order(tree), vec![30, 60, 65, 70, 80, 90]);
}

#[test]
fn iteration_is_sorted() {
    let mut tree = Tree::new();
    for v in [13, -2, 8, 8, 100, 0, 55, -2, 7] {
        tree.insert(v);
    }
    let values = in_order(tree);
    assert_eq!(values, vec![-2, -2, 0, 7, 8, 8, 13, 55, 100]);
}

#[test]
fn iterator_is_exhausted_once() {
    let mut tree = Tree::new();
    tree.insert(2);
    tree.insert(1);
    let mut iter = tree.into_iter();
    assert_eq!(iter.next(), Some(1));
    assert_eq!(iter.next(), Some(2));
    assert_eq!(iter.next(), None);
    assert_eq!(iter.next(), None);
}

#[test]
fn new_iterator_is_empty() {
    let mut iter: TreeIterator<i32> = TreeIterator::new();
    assert_eq!(iter.next(), None);
}

#[test]
fn clone_is_independent() {
    let mut source = Tree::new();
    for v in [3, 1, 2] {
        source.insert(v);
    }
    let mut copy = source.clone();
    assert_eq!(copy.size(), 3);
    copy.insert(10);
    assert_eq!(copy.remove(1), Ok(3));
    assert_eq!(source.size(), 3);
    assert!(source.search(1));
    assert!(!source.search(10));
    assert_eq!(in_order(copy), vec![2, 3, 10]);
    assert_eq!(in_order(source), vec![1, 2, 3]);
}

#[test]
fn scenario_remove_leaf_inner_root() {
    let mut tree = Tree::new();
    for v in [3, 1, 2, 4, 5] {
        tree.insert(v);
    }
    assert_eq!(tree.size(), 5);
    assert_eq!(tree.remove(5), Ok(4));
    assert_eq!(tree.remove(1), Ok(3));
    assert_eq!(tree.remove(3), Ok(2));
    assert_eq!(in_order(tree), vec![2, 4]);
}

#[test]
fn display_hands_values_in_order() {
    let mut tree = Tree::new();
    for v in [3, 1, 2, 4, 5] {
        tree.insert(v);
    }
    let mut out = vec![0];
    assert_eq!(tree.display(&mut out), 5);
    assert_eq!(out, vec![0, 1, 2, 3, 4, 5]);
}

#[test]
fn display_of_empty_tree() {
    let tree: Tree<String> = Tree::new();
    let mut out = Vec::new();
    assert_eq!(tree.display(&mut out), 0);
    assert!(out.is_empty());
}

#[test]
fn node_new_has_no_children() {
    let node = Node::new(5);
    assert_eq!(node.data, 5);
    assert!(node.left.is_none());
    assert!(node.right.is_none());
}
