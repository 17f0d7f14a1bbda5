use intrusive_red_black_tree::{Color, KeyOrder, KeyQuery, RBNode, RBTree, TreeKey};

fn keys_in_order(tree: &RBTree<i32>) -> Vec<i32> {
    let mut out = Vec::new();
    let mut it = tree.iter();
    while let Some(n) = it.next() {
        out.push(*tree.get_key(n));
    }
    out
}

fn build(keys: &[i32]) -> (RBTree<i32>, Vec<usize>) {
    let mut tree = RBTree::new(0);
    let mut nodes = Vec::new();
    for &k in keys {
        let n = tree.new_node(k);
        nodes.push(n);
        assert!(tree.insert(n));
    }
    (tree, nodes)
}

#[test]
fn integer_keys_compare_by_value() {
    assert_eq!(3i32.compare(&7), KeyOrder::Less);
    assert_eq!(7i32.compare(&7), KeyOrder::Equal);
    assert_eq!((-1i32).compare(&-8), KeyOrder::Greater);
    assert_eq!(i64::MIN.compare(&i64::MAX), KeyOrder::Less);
    assert_eq!(5u32.compare(&4), KeyOrder::Greater);
    assert_eq!(u64::MAX.compare(&u64::MAX), KeyOrder::Equal);
    assert_eq!(0usize.compare(&1), KeyOrder::Less);
}

#[test]
fn string_keys_compare_by_bytes() {
    let ab = String::from("ab");
    let abc = String::from("abc");
    let b = String::from("b");
    let accent = String::from("\u{e9}");
    let z = String::from("z");
    assert_eq!(ab.compare(&abc), KeyOrder::Less);
    assert_eq!(abc.compare(&ab), KeyOrder::Greater);
    assert_eq!(b.compare(&abc), KeyOrder::Greater);
    assert_eq!(ab.compare(&String::from("ab")), KeyOrder::Equal);
    assert_eq!(String::new().compare(&ab), KeyOrder::Less);
    // UTF-8 byte order, as `Ord for String` orders.
    assert_eq!(accent.compare(&z), KeyOrder::Greater);
    assert_eq!("abd".compare_key(&abc), KeyOrder::Greater);
    assert_eq!("ab".compare_key(&abc), KeyOrder::Less);
    assert_eq!("abc".compare_key(&abc), KeyOrder::Equal);
    assert_eq!(9i32.compare_key(&10i32), KeyOrder::Less);
}

#[test]
fn empty_tree() {
    let mut tree = RBTree::new(42);
    assert_eq!(tree.nil_node(), 0);
    assert_eq!(tree.root_node(), tree.nil_node());
    assert_eq!(tree.min_node(), tree.nil_node());
    assert_eq!(*tree.get_key(tree.nil_node()), 42);
    assert_eq!(tree.get_color(0), Color::BLACK);
    assert_eq!(tree.get_parent(0), 0);
    assert_eq!(tree.get_child(0, 0), 0);
    assert_eq!(tree.get_child(0, 1), 0);
    assert_eq!(tree.search(&1), None);
    assert!(!tree.exist(&42));
    assert_eq!(tree.delete(&1), None);
    assert_eq!(tree.delete_min(), None);
    assert_eq!(tree.next_node(tree.nil_node()), None);
    assert_eq!(tree.iter().next(), None);
}

#[test]
fn new_node_is_detached_red() {
    let mut tree = RBTree::new(0);
    let n = tree.new_node(5);
    assert_eq!(n, 1);
    assert_eq!(tree.get_color(n), Color::RED);
    assert_eq!(tree.get_parent(n), tree.nil_node());
    assert_eq!(tree.get_child(n, 0), tree.nil_node());
    assert_eq!(tree.get_child(n, 1), tree.nil_node());
    assert_eq!(tree.root_node(), tree.nil_node());
    assert!(!tree.exist(&5));
}

#[test]
fn first_insert_makes_black_root() {
    let mut tree = RBTree::new(0);
    let n = tree.new_node(10);
    assert!(tree.insert(n));
    assert_eq!(tree.root_node(), n);
    assert_eq!(tree.min_node(), n);
    assert_eq!(tree.get_color(n), Color::BLACK);
    assert_eq!(tree.get_parent(n), tree.nil_node());
}

#[test]
fn readme_example() {
    let (mut tree, nodes) = build(&[20, 10, 30, 5, 15]);
    let (n20, n10, n5, n15) = (nodes[0], nodes[1], nodes[3], nodes[4]);

    // Duplicate insertion fails, with no side effects.
    assert!(!tree.insert(n20));
    let dup = tree.new_node(30);
    assert!(!tree.insert(dup));
    assert_eq!(keys_in_order(&tree), vec![5, 10, 15, 20, 30]);

    assert_eq!(tree.min_node(), n5);
    assert_eq!(tree.search(&15), Some(n15));
    assert!(tree.exist(&30));
    assert!(!tree.exist(&99));

    assert_eq!(tree.delete(&10), Some(n10));
    assert!(!tree.exist(&10));
    assert_eq!(keys_in_order(&tree), vec![5, 15, 20, 30]);
}

#[test]
fn successor_walk() {
    let (tree, _) = build(&[50, 20, 80, 10, 30, 70, 90, 25, 35]);
    let mut n = tree.min_node();
    let mut seen = vec![*tree.get_key(n)];
    while let Some(next) = tree.next_node(n) {
        seen.push(*tree.get_key(next));
        n = next;
    }
    assert_eq!(seen, vec![10, 20, 25, 30, 35, 50, 70, 80, 90]);
    assert_eq!(tree.next_node(n), None);
    assert_eq!(tree.next_node(tree.nil_node()), None);
}

#[test]
fn delete_missing_leaves_tree_unchanged() {
    let (mut tree, _) = build(&[3, 1, 2]);
    let root = tree.root_node();
    assert_eq!(tree.delete(&7), None);
    assert_eq!(tree.root_node(), root);
    assert_eq!(keys_in_order(&tree), vec![1, 2, 3]);
}

#[test]
fn deleted_node_can_be_linked_again() {
    let (mut tree, nodes) = build(&[8, 4, 12, 2, 6, 10, 14]);
    let n6 = nodes[4];
    assert_eq!(tree.delete(&6), Some(n6));
    assert!(!tree.exist(&6));
    assert!(tree.insert(n6));
    assert_eq!(tree.search(&6), Some(n6));
    assert_eq!(keys_in_order(&tree), vec![2, 4, 6, 8, 10, 12, 14]);
}

fn nodes_in_order(tree: &RBTree<i32>) -> Vec<usize> {
    let mut out = Vec::new();
    let mut it = tree.iter();
    while let Some(n) = it.next() {
        out.push(n);
    }
    out
}

#[test]
fn insert_then_delete_restores_order() {
    let (mut tree, _) = build(&[50, 20, 70, 10, 30, 60, 80]);
    let before = nodes_in_order(&tree);
    let n = tree.new_node(25);
    assert!(tree.insert(n));
    assert_eq!(keys_in_order(&tree), vec![10, 20, 25, 30, 50, 60, 70, 80]);
    assert_eq!(tree.delete(&25), Some(n));
    assert_eq!(nodes_in_order(&tree), before);
}

#[test]
fn delete_min_then_reinsert_restores_order() {
    let (mut tree, nodes) = build(&[4, 2, 6, 1, 3, 5, 7]);
    let before = nodes_in_order(&tree);
    assert_eq!(tree.delete_min(), Some(nodes[3]));
    assert!(tree.insert(nodes[3]));
    assert_eq!(nodes_in_order(&tree), before);
    assert_eq!(tree.min_node(), nodes[3]);
}

#[test]
fn delete_root_with_two_children() {
    let (mut tree, _) = build(&[2, 1, 3]);
    let root = tree.root_node();
    assert_eq!(*tree.get_key(root), 2);
    assert_eq!(tree.delete(&2), Some(root));
    assert_eq!(keys_in_order(&tree), vec![1, 3]);
    assert_eq!(tree.get_color(tree.root_node()), Color::BLACK);
    assert_eq!(tree.get_parent(tree.root_node()), tree.nil_node());
}

#[test]
fn ascending_inserts_rotate_to_balance() {
    let (tree, nodes) = build(&[1, 2, 3]);
    // Three ascending inserts end with the middle key at the root.
    assert_eq!(tree.root_node(), nodes[1]);
    assert_eq!(tree.get_child(nodes[1], 0), nodes[0]);
    assert_eq!(tree.get_child(nodes[1], 1), nodes[2]);
    assert_eq!(tree.get_color(nodes[1]), Color::BLACK);
    assert_eq!(tree.get_color(nodes[0]), Color::RED);
    assert_eq!(tree.get_color(nodes[2]), Color::RED);
}

#[test]
fn recolor_case_keeps_root_black() {
    let (tree, nodes) = build(&[10, 5, 15, 1]);
    // The red uncle case recolors 5 and 15 black and 10 red, then the root is
    // painted black again.
    assert_eq!(tree.root_node(), nodes[0]);
    assert_eq!(tree.get_color(nodes[0]), Color::BLACK);
    assert_eq!(tree.get_color(nodes[1]), Color::BLACK);
    assert_eq!(tree.get_color(nodes[2]), Color::BLACK);
    assert_eq!(tree.get_color(nodes[3]), Color::RED);
}

#[test]
fn delete_min_then_iterate() {
    let (mut tree, nodes) = build(&[7, 3, 9, 1, 5]);
    assert_eq!(tree.delete_min(), Some(nodes[3]));
    assert_eq!(tree.min_node(), nodes[1]);
    assert_eq!(tree.delete_min(), Some(nodes[1]));
    assert_eq!(tree.min_node(), nodes[4]);
    assert_eq!(keys_in_order(&tree), vec![5, 7, 9]);
}

#[test]
fn unsigned_keys() {
    let mut tree: RBTree<u64> = RBTree::new(0);
    for k in [u64::MAX, 0, 17, 3] {
        let n = tree.new_node(k);
        assert!(tree.insert(n));
    }
    let mut out = Vec::new();
    let mut it = tree.iter();
    while let Some(n) = it.next() {
        out.push(*tree.get_key(n));
    }
    assert_eq!(out, vec![0, 3, 17, u64::MAX]);
    assert!(tree.exist(&u64::MAX));
    assert_eq!(tree.delete(&0).map(|n| *tree.get_key(n)), Some(0));
}

#[test]
fn string_tree_orders_by_bytes() {
    let mut tree = RBTree::new(String::new());
    for k in ["pear", "apple", "fig", "\u{e9}clair", "banana"] {
        let n = tree.new_node(String::from(k));
        assert!(tree.insert(n));
    }
    let mut out = Vec::new();
    let mut it = tree.iter();
    while let Some(n) = it.next() {
        out.push(tree.get_key(n).clone());
    }
    assert_eq!(out, vec!["apple", "banana", "fig", "pear", "\u{e9}clair"]);
    let dup = tree.new_node(String::from("fig"));
    assert!(!tree.insert(dup));
    assert!(tree.delete("apple").is_some());
    assert_eq!(tree.get_key(tree.min_node()), "banana");
}

fn depth(tree: &RBTree<i32>, mut n: usize) -> u32 {
    let mut d = 0;
    while n != tree.root_node() {
        n = tree.get_parent(n);
        d += 1;
    }
    d
}

#[test]
fn height_stays_logarithmic() {
    let mut tree = RBTree::new(0);
    let mut nodes = Vec::new();
    for k in 0..1000 {
        let n = tree.new_node(k);
        assert!(tree.insert(n));
        nodes.push(n);
    }
    let count: u64 = 1000;
    let max_depth = nodes.iter().map(|&n| depth(&tree, n)).max().unwrap();
    assert!(1u64 << (max_depth / 2) <= count + 1, "depth {} too large", max_depth);
    // Every node's depth is one more than its parent's.
    for &n in &nodes {
        if n != tree.root_node() {
            assert_eq!(depth(&tree, n), depth(&tree, tree.get_parent(n)) + 1);
        }
    }
    for k in (0..1000).step_by(3) {
        assert!(tree.delete(&k).is_some());
    }
    let remaining: Vec<usize> = nodes
        .iter()
        .copied()
        .filter(|&n| tree.exist(tree.get_key(n)) && tree.search(tree.get_key(n)) == Some(n))
        .collect();
    assert_eq!(remaining.len(), 666);
    let max_depth = remaining.iter().map(|&n| depth(&tree, n)).max().unwrap();
    assert!(1u64 << (max_depth / 2) <= 667, "depth {} too large", max_depth);
}

#[test]
fn black_heights_agree_on_every_path() {
    fn black_height(tree: &RBTree<i32>, n: usize) -> u32 {
        if n == tree.nil_node() {
            return 1;
        }
        let l = black_height(tree, tree.get_child(n, 0));
        let r = black_height(tree, tree.get_child(n, 1));
        assert_eq!(l, r);
        l + if tree.get_color(n) == Color::BLACK { 1 } else { 0 }
    }
    let mut tree = RBTree::new(0);
    for k in [50, 40, 60, 30, 45, 55, 70, 20, 35, 42, 47, 10, 5, 1] {
        let n = tree.new_node(k);
        assert!(tree.insert(n));
        black_height(&tree, tree.root_node());
    }
    for k in [40, 1, 50, 47, 60] {
        assert!(tree.delete(&k).is_some());
        black_height(&tree, tree.root_node());
        assert_eq!(tree.get_color(tree.root_node()), Color::BLACK);
    }
}

#[test]
fn crate_doc_example() {
    let mut tree: RBTree<usize> = RBTree::new(0);
    let node1 = tree.new_node(0x1000);
    let node2 = tree.new_node(0x0500);
    let node3 = tree.new_node(0x3000);

    assert!(tree.insert(node1));
    assert!(tree.insert(node2));
    assert!(tree.insert(node3));
    assert!(!tree.insert(node1));

    assert_eq!(tree.min_node(), node2);
    assert_eq!(tree.search(&0x1000), Some(node1));
    assert!(tree.exist(&0x3000));
    assert!(!tree.exist(&0x9000));

    let mut keys = Vec::new();
    let mut it = tree.iter();
    while let Some(n) = it.next() {
        keys.push(*tree.get_key(n));
    }
    assert_eq!(keys, vec![0x0500, 0x1000, 0x3000]);

    assert_eq!(tree.delete(&0x1000), Some(node1));
    assert!(!tree.exist(&0x1000));
}

#[test]
fn sentinel_children_stay_sentinel() {
    let (mut tree, _) = build(&[9, 4, 15, 2, 6, 12, 20, 1]);
    assert!(tree.delete(&4).is_some());
    assert!(tree.delete(&9).is_some());
    assert!(tree.delete_min().is_some());
    let nil = tree.nil_node();
    assert_eq!(tree.get_child(nil, 0), nil);
    assert_eq!(tree.get_child(nil, 1), nil);
    assert_eq!(tree.get_color(nil), Color::BLACK);
}

#[test]
fn minimum_is_leftmost_from_root() {
    let (tree, nodes) = build(&[10, 7, 15, 3, 8, 12, 1]);
    let nil = tree.nil_node();
    let mut n = tree.root_node();
    while tree.get_child(n, 0) != nil {
        n = tree.get_child(n, 0);
    }
    assert_eq!(n, nodes[6]);
    assert_eq!(tree.min_node(), n);
}

#[test]
fn iterator_steps_follow_successors() {
    let (tree, _) = build(&[40, 20, 60, 10, 30, 50, 70, 25]);
    let mut it = tree.iter();
    let mut prev = it.next().unwrap();
    assert_eq!(prev, tree.min_node());
    while let Some(n) = it.next() {
        assert_eq!(tree.next_node(prev), Some(n));
        assert!(*tree.get_key(prev) < *tree.get_key(n));
        prev = n;
    }
    assert_eq!(tree.next_node(prev), None);
    assert_eq!(it.next(), None);
    assert_eq!(it.next(), None);
}

#[test]
fn insert_leaves_sentinel_untouched() {
    let mut tree: RBTree<i32> = RBTree::new(0);
    let nil = tree.nil_node();
    for k in [5, 3, 8, 1, 4, 7, 9, 2, 6] {
        let n = tree.new_node(k);
        assert!(tree.insert(n));
        assert_eq!(tree.get_parent(nil), nil);
        assert_eq!(tree.get_child(nil, 0), nil);
        assert_eq!(tree.get_child(nil, 1), nil);
        assert_eq!(tree.get_color(nil), Color::BLACK);
    }
}

#[test]
fn popping_everything_yields_sorted_keys_and_empties() {
    let (mut tree, _) = build(&[9, 2, 7, 4, 1, 8]);
    let mut keys = Vec::new();
    while let Some(n) = tree.delete_min() {
        keys.push(*tree.get_key(n));
    }
    assert_eq!(keys, vec![1, 2, 4, 7, 8, 9]);
    assert_eq!(tree.root_node(), tree.nil_node());
    assert_eq!(tree.min_node(), tree.nil_node());
}

#[test]
fn deleting_every_key_empties() {
    let (mut tree, nodes) = build(&[6, 3, 9, 1, 5, 8, 11]);
    for (i, k) in [5, 11, 6, 1, 9, 3, 8].iter().enumerate() {
        let n = tree.delete(k).unwrap();
        assert_eq!(*tree.get_key(n), *k);
        assert!(nodes.contains(&n));
        assert_eq!(keys_in_order(&tree).len(), 6 - i);
    }
    assert_eq!(tree.root_node(), tree.nil_node());
    assert_eq!(tree.min_node(), tree.nil_node());
}
