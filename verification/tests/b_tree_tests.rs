use b_tree::{BTree, BTreeError};

/// Builds a tree of the given order holding `(k, k * 5)` for every key in
/// `keys`, seeding the tree with the first key. Every insert must succeed.
fn build_tree(order: usize, keys: &[u64]) -> BTree<u64> {
    let mut tree = BTree::new(keys[0], keys[0] * 5, order).unwrap();
    for &k in &keys[1..] {
        assert_eq!(tree.insert(k, k * 5), Ok(()));
    }
    tree
}

#[test]
fn test_ascending_inserts_all_present() {
    let keys: Vec<u64> = (1..16).collect();
    let tree = build_tree(4, &keys);
    for k in 1..16 {
        assert!(tree.key_exists(k), "key {k} must be present");
        assert_eq!(tree.get(k), Some(k * 5));
    }
    assert!(!tree.key_exists(0));
    assert!(!tree.key_exists(16));
    let levels = tree.describe();
    assert!(levels.len() >= 2, "the tree must have grown at least one level");
}

#[test]
fn test_ascending_inserts_exact_shape() {
    let keys: Vec<u64> = (1..16).collect();
    let tree = build_tree(4, &keys);
    let levels = tree.describe();
    assert_eq!(levels.len(), 2);
    assert_eq!(levels[0], vec![3, 6, 9, 12]);
    assert_eq!(levels[1], vec![1, 2, 4, 5, 7, 8, 10, 11, 13, 14, 15]);
}

#[test]
fn test_config_rejects_odd_order() {
    assert_eq!(BTree::new(1u64, 1u64, 3).err(), Some(BTreeError::ConfigError));
    assert_eq!(BTree::new(1u64, 1u64, 5).err(), Some(BTreeError::ConfigError));
}

#[test]
fn test_config_rejects_order_below_minimum() {
    assert_eq!(BTree::new(1u64, 1u64, 0).err(), Some(BTreeError::ConfigError));
    assert_eq!(BTree::new(1u64, 1u64, 1).err(), Some(BTreeError::ConfigError));
    assert_eq!(BTree::new(1u64, 1u64, 2).err(), Some(BTreeError::ConfigError));
    assert!(BTree::new(1u64, 1u64, 4).is_ok());
    assert!(BTree::new(1u64, 1u64, 6).is_ok());
}

#[test]
fn test_duplicate_key_keeps_first_value() {
    let mut tree = BTree::new(7u64, 70u64, 4).unwrap();
    assert_eq!(tree.insert(7, 71), Err(BTreeError::DuplicateKeyError));
    assert_eq!(tree.get(7), Some(70));
}

#[test]
fn test_duplicate_key_leaves_tree_unchanged() {
    let keys: Vec<u64> = (1..16).collect();
    let mut tree = build_tree(4, &keys);
    let levels_before = tree.describe();
    let in_order_before = tree.in_order_keys();
    for k in 1..16 {
        assert_eq!(tree.insert(k, 999), Err(BTreeError::DuplicateKeyError));
    }
    assert_eq!(tree.describe(), levels_before);
    assert_eq!(tree.in_order_keys(), in_order_before);
    for k in 1..16 {
        assert_eq!(tree.get(k), Some(k * 5));
    }
}

#[test]
fn test_duplicate_of_separator_key() {
    // After the ascending inserts the key 3 stands in the root, not in a
    // leaf: the duplicate must be caught on the way down.
    let keys: Vec<u64> = (1..16).collect();
    let mut tree = build_tree(4, &keys);
    assert_eq!(tree.insert(3, 999), Err(BTreeError::DuplicateKeyError));
    assert_eq!(tree.get(3), Some(15));
}

#[test]
fn test_remove_always_unsupported() {
    let keys: Vec<u64> = (1..16).collect();
    let mut tree = build_tree(4, &keys);
    let levels_before = tree.describe();
    assert_eq!(tree.remove(7), Err(BTreeError::UnsupportedError));
    assert_eq!(tree.remove(0), Err(BTreeError::UnsupportedError));
    assert_eq!(tree.remove(u64::MAX), Err(BTreeError::UnsupportedError));
    assert_eq!(tree.describe(), levels_before);
    for k in 1..16 {
        assert_eq!(tree.get(k), Some(k * 5));
    }
}

#[test]
fn test_round_trip_scrambled() {
    let keys = [41u64, 7, 93, 2, 56, 19, 88, 3, 64, 25, 77, 10, 50, 31, 99, 14, 68, 5];
    let tree = build_tree(4, &keys);
    for &k in &keys {
        assert!(tree.key_exists(k));
        assert_eq!(tree.get(k), Some(k * 5));
    }
    for absent in [0u64, 1, 4, 100, 1000, u64::MAX] {
        assert!(!tree.key_exists(absent));
        assert_eq!(tree.get(absent), None);
    }
}

#[test]
fn test_in_order_traversal_sorted() {
    let keys = [41u64, 7, 93, 2, 56, 19, 88, 3, 64, 25, 77, 10, 50, 31, 99, 14, 68, 5];
    let tree = build_tree(4, &keys);
    let in_order = tree.in_order_keys();
    let mut expected: Vec<u64> = keys.to_vec();
    expected.sort();
    assert_eq!(in_order, expected);
    for w in in_order.windows(2) {
        assert!(w[0] < w[1], "traversal must be strictly increasing");
    }
}

#[test]
fn test_no_key_lost_across_levels() {
    let keys: Vec<u64> = (1..16).collect();
    let tree = build_tree(4, &keys);
    let levels = tree.describe();
    let mut all: Vec<u64> = levels.into_iter().flatten().collect();
    all.sort();
    let expected: Vec<u64> = (1..16).collect();
    assert_eq!(all, expected);
    let root_keys = tree.describe()[0].len();
    assert!(1 <= root_keys && root_keys <= 4, "root within capacity");
}

#[test]
fn test_seed_only_tree() {
    let tree = BTree::new(42u64, 420u64, 6).unwrap();
    assert_eq!(tree.get(42), Some(420));
    assert!(tree.key_exists(42));
    assert!(!tree.key_exists(41));
    assert_eq!(tree.describe(), vec![vec![42]]);
    assert_eq!(tree.in_order_keys(), vec![42]);
}

#[test]
fn test_extreme_keys() {
    let mut tree = BTree::new(0u64, 1u64, 4).unwrap();
    assert_eq!(tree.insert(u64::MAX, 2), Ok(()));
    assert_eq!(tree.insert(u64::MAX / 2, 3), Ok(()));
    assert_eq!(tree.get(0), Some(1));
    assert_eq!(tree.get(u64::MAX), Some(2));
    assert_eq!(tree.get(u64::MAX / 2), Some(3));
    assert_eq!(tree.in_order_keys(), vec![0, u64::MAX / 2, u64::MAX]);
}

#[test]
fn test_descending_inserts() {
    let keys: Vec<u64> = (1..101).rev().collect();
    let tree = build_tree(4, &keys);
    let in_order = tree.in_order_keys();
    let expected: Vec<u64> = (1..101).collect();
    assert_eq!(in_order, expected);
    assert!(tree.describe().len() >= 3);
    for k in 1..101 {
        assert_eq!(tree.get(k), Some(k * 5));
    }
}

#[test]
fn test_larger_order_fewer_levels() {
    let keys: Vec<u64> = (1..101).collect();
    let narrow = build_tree(4, &keys);
    let wide = build_tree(100, &keys);
    assert!(wide.describe().len() <= narrow.describe().len());
    assert_eq!(wide.in_order_keys(), narrow.in_order_keys());
}
