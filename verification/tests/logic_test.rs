use intrusive_red_black_tree::{Color, RBNode, RBTree, TreeKey};

use std::collections::HashMap;
use std::fmt::Debug;
use std::vec::Vec;

// --- Deterministic pseudo-random input ---

struct Lcg(u64);

impl Lcg {
    fn next_u64(&mut self) -> u64 {
        self.0 = self
            .0
            .wrapping_mul(6364136223846793005)
            .wrapping_add(1442695040888963407);
        self.0 >> 33
    }

    fn next_i32(&mut self) -> i32 {
        self.next_u64() as u32 as i32
    }

    fn below(&mut self, n: u64) -> u64 {
        self.next_u64() % n
    }

    fn shuffle<T>(&mut self, v: &mut [T]) {
        for i in (1..v.len()).rev() {
            let j = self.below(i as u64 + 1) as usize;
            v.swap(i, j);
        }
    }
}

// --- Deep RB-Tree Invariants Validation Helpers ---

/// Recursively validates BST properties and Red-Black Tree invariants.
/// Returns (node_count, black_height).
fn check_invariants_rec<K: TreeKey + Ord + Copy + Debug>(
    tree: &RBTree<K>,
    node: usize,
    min_bound: Option<K>,
    max_bound: Option<K>,
) -> (usize, usize) {
    if node == tree.nil_node() {
        // Nil leaves must always be BLACK
        assert_eq!(tree.get_color(node), Color::BLACK);
        return (0, 1); // Sentinel counts as 1 black node in the path height
    }

    let current_key = *tree.get_key(node);
    let color = tree.get_color(node);

    // 1. Strict BST bound checking
    if let Some(min) = min_bound {
        assert!(current_key > min, "BST Violation: {:?} <= {:?}", current_key, min);
    }
    if let Some(max) = max_bound {
        assert!(current_key < max, "BST Violation: {:?} >= {:?}", current_key, max);
    }

    let left = tree.get_child(node, 0);
    let right = tree.get_child(node, 1);

    // 2. Parent-Child Pointer Reciprocity
    if left != tree.nil_node() {
        assert_eq!(tree.get_parent(left), node, "Left child parent mismatch at key {:?}", current_key);
    }
    if right != tree.nil_node() {
        assert_eq!(tree.get_parent(right), node, "Right child parent mismatch at key {:?}", current_key);
    }

    // 3. Red Property: Red nodes must not have Red children (No double red)
    if color == Color::RED {
        if left != tree.nil_node() {
            assert_ne!(tree.get_color(left), Color::RED, "Red-Red violation at key {:?}", current_key);
        }
        if right != tree.nil_node() {
            assert_ne!(tree.get_color(right), Color::RED, "Red-Red violation at key {:?}", current_key);
        }
    }

    let (left_count, left_bh) = check_invariants_rec(tree, left, min_bound, Some(current_key));
    let (right_count, right_bh) = check_invariants_rec(tree, right, Some(current_key), max_bound);

    // 4. Black Height Uniformity Rule
    assert_eq!(
        left_bh, right_bh,
        "Black-Height mismatch at node {:?}: left_bh={}, right_bh={}",
        current_key, left_bh, right_bh
    );

    let my_bh = left_bh + if color == Color::BLACK { 1 } else { 0 };

    (left_count + right_count + 1, my_bh)
}

/// Full validation suite for the tree structure and minimum pointer accuracy.
fn check_tree_invariants<K: TreeKey + Ord + Copy + Debug>(tree: &RBTree<K>) -> usize {
    // Root Property: Root must be BLACK
    assert_eq!(tree.get_color(tree.root_node()), Color::BLACK, "Root node is not BLACK");

    let (count, _) = check_invariants_rec(tree, tree.root_node(), None, None);

    // Verify Minimum Pointer Consistency
    if count == 0 {
        assert_eq!(tree.min_node(), tree.nil_node(), "Empty tree minimum should be NIL");
    } else {
        let mut curr = tree.root_node();
        while tree.get_child(curr, 0) != tree.nil_node() {
            curr = tree.get_child(curr, 0);
        }
        assert_eq!(
            tree.min_node(),
            curr,
            "Tree minimum pointer doesn't match actual leftmost node"
        );
    }

    count
}

fn collect_in_order(tree: &RBTree<i32>, node: usize, vec: &mut Vec<i32>) {
    if node != tree.nil_node() {
        let left = tree.get_child(node, 0);
        let right = tree.get_child(node, 1);

        collect_in_order(tree, left, vec);
        vec.push(*tree.get_key(node));
        collect_in_order(tree, right, vec);
    }
}

fn iter_keys(tree: &RBTree<i32>) -> Vec<i32> {
    let mut keys = Vec::new();
    let mut it = tree.iter();
    while let Some(n) = it.next() {
        keys.push(*tree.get_key(n));
    }
    keys
}

// --- Workloads ---

#[derive(Debug, Clone)]
enum TreeOp {
    Insert(i32),
    Delete(i32),
    Search(i32),
}

fn differential_workload(operations: &[TreeOp]) {
    let mut tree = RBTree::new(0);
    let mut reference_map = HashMap::new();

    for op in operations {
        match *op {
            TreeOp::Insert(key) => {
                if !reference_map.contains_key(&key) {
                    let node = tree.new_node(key);
                    reference_map.insert(key, node);
                    let inserted = tree.insert(node);
                    assert!(inserted);
                } else {
                    // Test duplicate insertion handling
                    let temp_node = tree.new_node(key);
                    let inserted = tree.insert(temp_node);
                    assert!(!inserted);
                }
            }
            TreeOp::Delete(key) => {
                let deleted_node = tree.delete(&key);
                if let Some(node) = deleted_node {
                    assert_eq!(*tree.get_key(node), key);
                    reference_map.remove(&key);
                } else {
                    assert!(!reference_map.contains_key(&key));
                }
            }
            TreeOp::Search(key) => {
                let expect_exist = reference_map.contains_key(&key);
                assert_eq!(tree.exist(&key), expect_exist);

                if let Some(res) = tree.search(&key) {
                    assert_eq!(*tree.get_key(res), key);
                }
            }
        }

        // Verification step per operation
        let actual_count = check_tree_invariants(&tree);
        assert_eq!(actual_count, reference_map.len());
    }

    // In-order traversal / Sorting validation check
    let mut tree_keys = Vec::new();
    collect_in_order(&tree, tree.root_node(), &mut tree_keys);
    let mut expected_keys: Vec<i32> = reference_map.keys().copied().collect();
    expected_keys.sort();
    assert_eq!(tree_keys, expected_keys);

    // Iterator check vs In-order
    assert_eq!(iter_keys(&tree), expected_keys);
}

fn random_ops(seed: u64, len: usize, key_range: u64) -> Vec<TreeOp> {
    let mut rng = Lcg(seed);
    (0..len)
        .map(|_| {
            let key = rng.below(key_range) as i32 - (key_range / 2) as i32;
            match rng.below(3) {
                0 => TreeOp::Insert(key),
                1 => TreeOp::Delete(key),
                _ => TreeOp::Search(key),
            }
        })
        .collect()
}

#[test]
fn fuzz_differential_workload() {
    differential_workload(&[]);
    for seed in 0..24u64 {
        differential_workload(&random_ops(seed, 300, 64));
        differential_workload(&random_ops(seed + 100, 200, 1 << 20));
    }
}

fn bulk_inserts_then_clean_deletions(keys: &[i32]) {
    let mut tree = RBTree::new(0);
    let mut unique_tracker = HashMap::new();

    for &key in keys {
        if !unique_tracker.contains_key(&key) {
            let p = tree.new_node(key);
            unique_tracker.insert(key, p);
            tree.insert(p);
        }
    }

    let count = check_tree_invariants(&tree);
    assert_eq!(count, unique_tracker.len());

    for &key in keys {
        if unique_tracker.remove(&key).is_some() {
            let deleted = tree.delete(&key);
            assert!(deleted.is_some());
            check_tree_invariants(&tree);
        }
    }

    assert_eq!(tree.root_node(), tree.nil_node());
    assert_eq!(tree.min_node(), tree.nil_node());
}

#[test]
fn fuzz_bulk_inserts_then_clean_deletions() {
    bulk_inserts_then_clean_deletions(&[]);
    bulk_inserts_then_clean_deletions(&[i32::MIN, i32::MAX, 0, -1, 1]);
    for seed in 0..16u64 {
        let mut rng = Lcg(seed);
        let keys: Vec<i32> = (0..400).map(|_| rng.next_i32()).collect();
        bulk_inserts_then_clean_deletions(&keys);
        let small: Vec<i32> = (0..400).map(|_| rng.below(50) as i32).collect();
        bulk_inserts_then_clean_deletions(&small);
    }
}

fn extreme_sequential_and_duplicates(small_ints: &[u8]) {
    let mut tree = RBTree::new(0);
    let mut active_nodes = HashMap::new();

    for &val in small_ints {
        let key = val as i32;
        if !active_nodes.contains_key(&key) {
            let p = tree.new_node(key);
            active_nodes.insert(key, p);
            tree.insert(p);
        } else if let Some(_old_p) = tree.delete(&key) {
            let new_p = tree.new_node(key);
            active_nodes.insert(key, new_p);
            tree.insert(new_p);
        }
    }

    check_tree_invariants(&tree);
}

#[test]
fn fuzz_extreme_sequential_and_duplicates() {
    let ascending: Vec<u8> = (0..=255).collect();
    extreme_sequential_and_duplicates(&ascending);
    let descending: Vec<u8> = (0..=255).rev().collect();
    extreme_sequential_and_duplicates(&descending);
    let twice: Vec<u8> = (0..=255).chain(0..=255).collect();
    extreme_sequential_and_duplicates(&twice);
    for seed in 0..16u64 {
        let mut rng = Lcg(seed);
        let bytes: Vec<u8> = (0..1000).map(|_| rng.below(256) as u8).collect();
        extreme_sequential_and_duplicates(&bytes);
    }
}

#[test]
fn test_string_key_with_borrow_str() {
    let mut tree = RBTree::new(String::new());
    let node1 = tree.new_node(String::from("kernel_core"));
    let node2 = tree.new_node(String::from("allocator"));

    tree.insert(node1);
    tree.insert(node2);

    // 1. Search using &str directly
    assert!(tree.exist("kernel_core"));
    assert!(tree.exist("allocator"));
    assert!(!tree.exist("missing_key"));

    let found = tree.search("kernel_core");
    assert!(found.is_some());
    assert_eq!(tree.get_key(found.unwrap()), "kernel_core");

    // 2. Delete using &str lookup
    let deleted = tree.delete("allocator");
    assert!(deleted.is_some());
    assert_eq!(tree.get_key(deleted.unwrap()), "allocator");
    assert!(!tree.exist("allocator"));
}

#[test]
fn test_delete_min_basic() {
    let mut tree = RBTree::new(0);

    assert!(tree.delete_min().is_none());

    let keys = vec![15, 10, 20, 5, 12, 25, 3];
    for &k in &keys {
        let n = tree.new_node(k);
        tree.insert(n);
    }

    check_tree_invariants(&tree);

    let mut deleted_keys = Vec::new();
    while let Some(node) = tree.delete_min() {
        let key = *tree.get_key(node);
        deleted_keys.push(key);

        check_tree_invariants(&tree);
    }

    assert_eq!(deleted_keys, vec![3, 5, 10, 12, 15, 20, 25]);
    assert_eq!(tree.root_node(), tree.nil_node());
}

fn delete_min_ordering(keys: &[i32]) {
    let mut tree = RBTree::new(0);
    let mut inserted_keys = HashMap::new();

    for &key in keys {
        if !inserted_keys.contains_key(&key) {
            let node = tree.new_node(key);
            inserted_keys.insert(key, node);
            tree.insert(node);
        }
    }

    let mut expected_sorted: Vec<i32> = inserted_keys.keys().copied().collect();
    expected_sorted.sort_unstable();

    let mut actual_popped = Vec::new();

    while let Some(min) = tree.delete_min() {
        let key = *tree.get_key(min);
        actual_popped.push(key);

        check_tree_invariants(&tree);
    }

    assert_eq!(actual_popped, expected_sorted);
    assert_eq!(tree.root_node(), tree.nil_node());
}

#[test]
fn fuzz_delete_min_ordering() {
    delete_min_ordering(&[]);
    for seed in 0..16u64 {
        let mut rng = Lcg(seed);
        let keys: Vec<i32> = (0..300).map(|_| rng.next_i32()).collect();
        delete_min_ordering(&keys);
        let small: Vec<i32> = (0..300).map(|_| rng.below(40) as i32).collect();
        delete_min_ordering(&small);
    }
}

#[test]
fn visual_test() {
    let mut rb_tree = RBTree::new(0);
    let mut numbers: Vec<i32> = (1..=200).collect();

    let mut rng = Lcg(2024);

    rng.shuffle(&mut numbers);

    let keys: Vec<i32> = numbers.into_iter().take(30).collect();

    for i in &keys {
        let n = rb_tree.new_node(*i);
        rb_tree.insert(n);
    }

    println!();
    println!("Inserted Keys : {:?}", keys);
    println!();
    print_tree(&rb_tree);

    let rm_keys = &keys[0..keys.len() / 2];

    for r in rm_keys {
        rb_tree.delete(r).unwrap();
    }

    println!();
    println!("Deleted Keys : {:?}", rm_keys);
    println!();
    print_tree(&rb_tree);
    println!();

    while rb_tree.delete_min().is_some() {}
    assert_eq!(rb_tree.root_node(), rb_tree.nil_node());
}

pub fn print_tree<K: TreeKey + Debug>(tree: &RBTree<K>) {
    if tree.root_node() == tree.nil_node() {
        println!("<Empty Tree>");
        return;
    }
    print_node(tree, tree.root_node(), "", true);
}

fn print_node<K: TreeKey + Debug>(tree: &RBTree<K>, node: usize, prefix: &str, is_left: bool) {
    if node == tree.nil_node() {
        return;
    }

    let right = tree.get_child(node, 1);
    if right != tree.nil_node() {
        let new_prefix = format!("{}{}", prefix, if is_left { "│   " } else { "    " });
        print_node(tree, right, &new_prefix, false);
    }

    let color_str = match tree.get_color(node) {
        Color::RED => "\x1b[31mR\x1b[0m",
        Color::BLACK => "\x1b[30mB\x1b[0m",
    };

    let branch = if node == tree.root_node() {
        "── "
    } else if is_left {
        "└── "
    } else {
        "┌── "
    };

    println!("{}{}[{}] {:?}", prefix, branch, color_str, tree.get_key(node));

    let left = tree.get_child(node, 0);
    if left != tree.nil_node() {
        let new_prefix = format!("{}{}", prefix, if is_left { "    " } else { "│   " });
        print_node(tree, left, &new_prefix, true);
    }
}
