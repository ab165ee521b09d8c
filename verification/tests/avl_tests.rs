use adts::avl::AVLTree;

fn traversal(tree: &AVLTree<i32>) -> Vec<i32> {
    let mut out = Vec::new();
    let mut it = tree.iter();
    while let Some(v) = it.next() {
        out.push(v);
    }
    out
}

fn assert_strictly_ascending(items: &[i32]) {
    for w in items.windows(2) {
        assert!(w[0] < w[1]);
    }
}

#[test]
fn new_tree_is_empty() {
    let tree: AVLTree<i32> = AVLTree::new();
    assert!(tree.is_empty());
    assert_eq!(tree.size(), 0);
    assert_eq!(tree.height(), 0);
    assert_eq!(tree.get_min(), None);
    assert_eq!(tree.get_max(), None);
    assert_eq!(traversal(&tree), Vec::<i32>::new());
}

#[test]
fn insert_reports_growth() {
    let mut tree = AVLTree::new();
    assert!(tree.insert(4));
    assert!(tree.insert(2));
    assert!(tree.insert(6));
    assert!(!tree.insert(4));
    assert_eq!(tree.size(), 3);
    assert!(tree.contains(&2));
    assert!(tree.contains(&4));
    assert!(tree.contains(&6));
    assert!(!tree.contains(&5));
}

#[test]
fn duplicate_insert_changes_nothing() {
    let mut tree = AVLTree::from(vec![5, 3, 8, 1, 4]);
    let before = traversal(&tree);
    let size_before = tree.size();
    let height_before = tree.height();
    assert!(!tree.insert(3));
    assert_eq!(traversal(&tree), before);
    assert_eq!(tree.size(), size_before);
    assert_eq!(tree.height(), height_before);
}

#[test]
fn remove_absent_changes_nothing() {
    let mut tree = AVLTree::from(vec![5, 3, 8, 1, 4]);
    let before = traversal(&tree);
    let size_before = tree.size();
    let height_before = tree.height();
    assert!(!tree.remove(&77));
    assert_eq!(traversal(&tree), before);
    assert_eq!(tree.size(), size_before);
    assert_eq!(tree.height(), height_before);
}

#[test]
fn remove_reports_shrink() {
    let mut tree = AVLTree::from(vec![5, 3, 8]);
    assert!(tree.remove(&3));
    assert!(!tree.remove(&3));
    assert_eq!(tree.size(), 2);
    assert!(!tree.contains(&3));
}

#[test]
fn traversal_sorted_after_every_operation() {
    let mut tree = AVLTree::new();
    let ops: Vec<(bool, i32)> = vec![
        (true, 50),
        (true, 20),
        (true, 70),
        (true, 10),
        (true, 30),
        (false, 20),
        (true, 60),
        (true, 80),
        (false, 50),
        (true, 25),
        (true, 5),
        (false, 99),
        (true, 15),
        (false, 10),
        (true, 35),
    ];
    for (is_insert, key) in ops {
        if is_insert {
            tree.insert(key);
        } else {
            tree.remove(&key);
        }
        let items = traversal(&tree);
        assert_strictly_ascending(&items);
        assert_eq!(items.len(), tree.size());
    }
}

#[test]
fn round_trip_leaves_empty_tree() {
    let mut tree = AVLTree::new();
    let insert_order = [8, 3, 10, 1, 6, 14, 4, 7, 13, 2];
    let remove_order = [13, 1, 7, 8, 2, 14, 3, 10, 4, 6];
    for k in insert_order {
        assert!(tree.insert(k));
    }
    assert_eq!(tree.size(), 10);
    for k in remove_order {
        assert!(tree.remove(&k));
    }
    assert_eq!(tree.size(), 0);
    assert!(tree.is_empty());
    assert_eq!(traversal(&tree), Vec::<i32>::new());
}

#[test]
fn floor_queries() {
    let tree = AVLTree::from(vec![1, 3, 7, 9]);
    assert_eq!(tree.get_floor(&5), Some(3));
    assert_eq!(tree.get_floor(&9), Some(9));
    assert_eq!(tree.get_floor(&0), None);
    assert_eq!(tree.get_floor(&100), Some(9));
}

#[test]
fn ceil_queries() {
    let tree = AVLTree::from(vec![1, 3, 7, 9]);
    assert_eq!(tree.get_ceil(&5), Some(7));
    assert_eq!(tree.get_ceil(&1), Some(1));
    assert_eq!(tree.get_ceil(&10), None);
    assert_eq!(tree.get_ceil(&-4), Some(1));
}

#[test]
fn min_max_queries() {
    let tree = AVLTree::from(vec![12, 4, 19, 4, 7]);
    assert_eq!(tree.get_min(), Some(4));
    assert_eq!(tree.get_max(), Some(19));
}

#[test]
fn rotation_scenario_keeps_order_and_balance() {
    let mut tree = AVLTree::new();
    for k in [5, 3, 8, 1, 4, 7, 9] {
        assert!(tree.insert(k));
    }
    assert_eq!(traversal(&tree), vec![1, 3, 4, 5, 7, 8, 9]);
    // seven keys in a balanced tree fit exactly in height 3
    assert_eq!(tree.height(), 3);
}

#[test]
fn descending_insertion_stays_logarithmic() {
    let mut tree = AVLTree::new();
    for k in (1..=10).rev() {
        assert!(tree.insert(k));
    }
    assert_eq!(traversal(&tree), (1..=10).collect::<Vec<i32>>());
    // a chain would have height 10; a balanced tree of 10 keys has height 4
    assert!(tree.height() <= 4);
}

#[test]
fn larger_descending_insertion_stays_logarithmic() {
    let mut tree = AVLTree::new();
    for k in (1..=100).rev() {
        assert!(tree.insert(k));
    }
    assert_eq!(tree.size(), 100);
    // a balanced tree of 100 keys has height at most 8; a chain would have 100
    assert!(tree.height() <= 8);
    let items = traversal(&tree);
    assert_eq!(items, (1..=100).collect::<Vec<i32>>());
}

#[test]
fn clone_is_independent() {
    let original = AVLTree::from(vec![5, 1, 9, 3]);
    let mut copy = original.clone();
    let before = traversal(&original);
    assert_eq!(traversal(&copy), before);
    copy.insert(7);
    copy.remove(&1);
    assert_eq!(traversal(&original), before);
    assert_eq!(traversal(&copy), vec![3, 5, 7, 9]);
}

#[test]
fn from_drops_duplicates() {
    let tree = AVLTree::from(vec![2, 1, 2, 3, 1]);
    assert_eq!(tree.size(), 3);
    assert_eq!(traversal(&tree), vec![1, 2, 3]);
}

#[test]
fn extend_inserts_all() {
    let mut tree = AVLTree::from(vec![10]);
    tree.extend(vec![5, 15, 10]);
    assert_eq!(traversal(&tree), vec![5, 10, 15]);
}

#[test]
fn clear_resets() {
    let mut tree = AVLTree::from(vec![1, 2, 3]);
    tree.clear();
    assert!(tree.is_empty());
    assert_eq!(tree.size(), 0);
    assert!(!tree.contains(&1));
}

#[test]
fn consuming_iteration_is_ascending() {
    let tree = AVLTree::from(vec![4, 2, 6, 1, 3, 5, 7]);
    let mut it = tree.into_iter();
    let mut out = Vec::new();
    assert!(it.has_next());
    while let Some(v) = it.next() {
        out.push(v);
    }
    assert!(!it.has_next());
    assert_eq!(out, vec![1, 2, 3, 4, 5, 6, 7]);
}

#[test]
fn borrowing_iterator_has_next() {
    let tree = AVLTree::from(vec![2, 1]);
    let mut it = tree.iter();
    assert!(it.has_next());
    assert_eq!(it.next(), Some(1));
    assert_eq!(it.next(), Some(2));
    assert!(!it.has_next());
    assert_eq!(it.next(), None);
}

#[test]
fn two_child_deletion_uses_successor() {
    let mut tree = AVLTree::from(vec![8, 4, 12, 2, 6, 10, 14]);
    assert!(tree.remove(&8));
    let items = traversal(&tree);
    assert_eq!(items, vec![2, 4, 6, 10, 12, 14]);
    assert_strictly_ascending(&items);
    assert_eq!(tree.size(), 6);
}
